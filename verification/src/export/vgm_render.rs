//! Rendering a VGM file: which channels are muted for a stem, and what is done with the sound.
//!
//! A stem is rendered by a player of its own, with every channel of every chip muted but one.
use crate::chips::{all_but, in_mask, law_solo, mask_ch, ALL_AY_CHANNELS, ALL_FM_CHANNELS, ALL_SCC_CHANNELS};
use crate::export::ids::{is_number, law_decimal_reads_back};
use crate::export::pace::VGM_SAMPLE_RATE;
use crate::formats::vgm::{VgmFile, VgmFileView};
use crate::text::{decimal, push_decimal};
use vstd::prelude::*;

verus! {

/// The player's numbers of the chips.
pub const DEV_YM2413: u32 = 0x01;

pub const DEV_YM2612: u32 = 0x02;

pub const DEV_YM2151: u32 = 0x03;

pub const DEV_SEGAPCM: u32 = 0x04;

/// The RF5C164 has the same number: it is the second instance.
pub const DEV_RF5C68: u32 = 0x05;

pub const DEV_YM2203: u32 = 0x06;

pub const DEV_YM2608: u32 = 0x07;

pub const DEV_YM2610: u32 = 0x08;

pub const DEV_YM3812: u32 = 0x09;

pub const DEV_YM3526: u32 = 0x0A;

pub const DEV_AY8910: u32 = 0x12;

pub const DEV_GB_DMG: u32 = 0x13;

pub const DEV_NES_APU: u32 = 0x14;

pub const DEV_K051649: u32 = 0x19;

pub const ALL_YM2612_CHANNELS: u32 = 0x7f;

pub const ALL_YM2151_CHANNELS: u32 = 0xff;

pub const ALL_YM2203_CHANNELS: u32 = 0x7;

/// Six FM channels, six of ADPCM-A and one of ADPCM-B.
pub const ALL_OPNA_CHANNELS: u32 = 0x1fff;

pub const ALL_SEGAPCM_CHANNELS: u32 = 0xffff;

pub const ALL_RF5C_CHANNELS: u32 = 0xff;

pub const ALL_GB_CHANNELS: u32 = 0xf;

pub const ALL_NES_CHANNELS: u32 = 0x1f;

/// Mutes the channels of a chip that are set in the mask, and lets the others be heard.
#[derive(Clone, Copy, Debug, PartialEq, Eq, Structural)]
pub struct Mute {
    pub device: u32,
    pub instance: u32,
    pub mask: u32,
}

pub open spec fn mute(device: u32, instance: u32, mask: u32) -> Mute {
    Mute { device, instance, mask }
}

/// Mutes every channel of every chip. Of a chip that the file does not use, it does nothing.
pub open spec fn everything_muted() -> Seq<Mute> {
    seq![
        mute(DEV_YM2413, 0, ALL_FM_CHANNELS),
        mute(DEV_AY8910, 0, ALL_AY_CHANNELS),
        mute(DEV_K051649, 0, ALL_SCC_CHANNELS),
        mute(DEV_YM3526, 0, ALL_FM_CHANNELS),
        mute(DEV_YM3812, 0, ALL_FM_CHANNELS),
        mute(DEV_YM2612, 0, ALL_YM2612_CHANNELS),
        mute(DEV_YM2151, 0, ALL_YM2151_CHANNELS),
        mute(DEV_YM2203, 0, ALL_YM2203_CHANNELS),
        mute(DEV_YM2608, 0, ALL_OPNA_CHANNELS),
        mute(DEV_YM2610, 0, ALL_OPNA_CHANNELS),
        mute(DEV_SEGAPCM, 0, ALL_SEGAPCM_CHANNELS),
        mute(DEV_RF5C68, 0, ALL_RF5C_CHANNELS),
        mute(DEV_RF5C68, 1, ALL_RF5C_CHANNELS),
        mute(DEV_GB_DMG, 0, ALL_GB_CHANNELS),
        mute(DEV_NES_APU, 0, ALL_NES_CHANNELS),
    ]
}

pub fn mute_everything() -> (r: Vec<Mute>)
    ensures
        r@ == everything_muted(),
{
    let r: Vec<Mute> = vec![
        Mute { device: DEV_YM2413, instance: 0, mask: ALL_FM_CHANNELS },
        Mute { device: DEV_AY8910, instance: 0, mask: ALL_AY_CHANNELS },
        Mute { device: DEV_K051649, instance: 0, mask: ALL_SCC_CHANNELS },
        Mute { device: DEV_YM3526, instance: 0, mask: ALL_FM_CHANNELS },
        Mute { device: DEV_YM3812, instance: 0, mask: ALL_FM_CHANNELS },
        Mute { device: DEV_YM2612, instance: 0, mask: ALL_YM2612_CHANNELS },
        Mute { device: DEV_YM2151, instance: 0, mask: ALL_YM2151_CHANNELS },
        Mute { device: DEV_YM2203, instance: 0, mask: ALL_YM2203_CHANNELS },
        Mute { device: DEV_YM2608, instance: 0, mask: ALL_OPNA_CHANNELS },
        Mute { device: DEV_YM2610, instance: 0, mask: ALL_OPNA_CHANNELS },
        Mute { device: DEV_SEGAPCM, instance: 0, mask: ALL_SEGAPCM_CHANNELS },
        Mute { device: DEV_RF5C68, instance: 0, mask: ALL_RF5C_CHANNELS },
        Mute { device: DEV_RF5C68, instance: 1, mask: ALL_RF5C_CHANNELS },
        Mute { device: DEV_GB_DMG, instance: 0, mask: ALL_GB_CHANNELS },
        Mute { device: DEV_NES_APU, instance: 0, mask: ALL_NES_CHANNELS },
    ];
    assert(r@ =~= everything_muted());
    r
}

/// A stem to render: its name, and what is unmuted for it behind everything else.
#[derive(Debug)]
pub struct StemPlan {
    pub name: String,
    pub solo: Mute,
}

/// What a `StemPlan` holds.
#[verifier::ext_equal]
pub struct StemPlanView {
    pub name: Seq<char>,
    pub solo: Mute,
}

impl View for StemPlan {
    type V = StemPlanView;

    open spec fn view(&self) -> StemPlanView {
        StemPlanView { name: self.name@, solo: self.solo }
    }
}

/// What plans hold.
pub open spec fn plan_views(plans: Seq<StemPlan>) -> Seq<StemPlanView> {
    plans.map_values(|p: StemPlan| p@)
}

/// A chip's voices.
#[derive(Clone, Copy, Debug, PartialEq, Eq, Structural)]
pub struct Voices {
    pub device: u32,
    pub instance: u32,
    pub all: u32,
}

impl Voices {
    /// The stem of one channel.
    pub open spec fn stem(self, name: Seq<char>, ch: u32) -> StemPlanView {
        StemPlanView {
            name,
            solo: mute(self.device, self.instance, all_but(self.all, 1u32 << ch)),
        }
    }

    /// The stems of the first `n` channels, with their numbers as names.
    pub open spec fn numbered(self, prefix: Seq<char>, n: nat) -> Seq<StemPlanView> {
        Seq::new(n, |i: int| self.stem(prefix + decimal(i + 1), i as u32))
    }

    /// The stems of channels with names.
    pub open spec fn named(self, prefix: Seq<char>, names: Seq<Seq<char>>) -> Seq<StemPlanView> {
        Seq::new(names.len(), |i: int| self.stem(prefix + names[i], i as u32))
    }

    /// The stems of an FM chip's percussion.
    pub open spec fn percussion(self, prefix: Seq<char>) -> Seq<StemPlanView> {
        seq![
            self.stem(prefix + "BD"@, 9),
            self.stem(prefix + "HH"@, 13),
            self.stem(prefix + "SD"@, 10),
            self.stem(prefix + "TOM"@, 11),
            self.stem(prefix + "CYM"@, 12),
        ]
    }

    fn push_stem(&self, out: &mut Vec<StemPlan>, prefix: &str, name: &str, ch: u32)
        requires
            ch < 32,
        ensures
            plan_views(final(out)@) == plan_views(old(out)@).push(self.stem(prefix@ + name@, ch)),
    {
        let ghost before = out@;
        let mut full: String = prefix.to_owned();
        full.append(name);
        let plan = StemPlan {
            name: full,
            solo: Mute {
                device: self.device,
                instance: self.instance,
                mask: self.all & !mask_ch(ch),
            },
        };
        out.push(plan);
        assert(plan_views(out@) =~= plan_views(before).push(plan@));
    }

    fn push_numbered(&self, out: &mut Vec<StemPlan>, prefix: &str, n: u32)
        requires
            n <= 32,
        ensures
            plan_views(final(out)@) == plan_views(old(out)@) + self.numbered(prefix@, n as nat),
    {
        let ghost start = plan_views(out@);
        let ghost whole = self.numbered(prefix@, n as nat);
        let mut i: u32 = 0;
        assert(start + whole.take(0) =~= start);
        while i < n
            invariant
                i <= n <= 32,
                whole == self.numbered(prefix@, n as nat),
                plan_views(out@) == start + whole.take(i as int),
            decreases n - i,
        {
            let mut number: String = String::new();
            push_decimal(&mut number, i as u64 + 1);
            assert(number@ =~= decimal(i + 1));
            self.push_stem(out, prefix, number.as_str(), i);
            i += 1;
            assert(start + whole.take(i as int) =~= (start + whole.take(i - 1)).push(
                whole[i - 1],
            ));
        }
        assert(whole.take(i as int) =~= whole);
    }

    fn push_named(&self, out: &mut Vec<StemPlan>, prefix: &str, names: &Vec<&str>)
        requires
            names.len() <= 32,
        ensures
            plan_views(final(out)@) == plan_views(old(out)@) + self.named(
                prefix@,
                name_views(names@),
            ),
    {
        let ghost start = plan_views(out@);
        let ghost whole = self.named(prefix@, name_views(names@));
        let mut i: usize = 0;
        assert(start + whole.take(0) =~= start);
        while i < names.len()
            invariant
                i <= names.len() <= 32,
                whole == self.named(prefix@, name_views(names@)),
                plan_views(out@) == start + whole.take(i as int),
            decreases names.len() - i,
        {
            assert(name_views(names@)[i as int] == names[i as int]@);
            self.push_stem(out, prefix, names[i], i as u32);
            i += 1;
            assert(start + whole.take(i as int) =~= (start + whole.take(i - 1)).push(
                whole[i - 1],
            ));
        }
        assert(whole.take(i as int) =~= whole);
    }

    fn push_fm(&self, out: &mut Vec<StemPlan>, prefix: &str)
        ensures
            plan_views(final(out)@) == plan_views(old(out)@) + self.numbered(prefix@, 9)
                + self.percussion(prefix@),
    {
        self.push_numbered(out, prefix, 9);
        let ghost middle = plan_views(out@);
        self.push_stem(out, prefix, "BD", 9);
        self.push_stem(out, prefix, "HH", 13);
        self.push_stem(out, prefix, "SD", 10);
        self.push_stem(out, prefix, "TOM", 11);
        self.push_stem(out, prefix, "CYM", 12);
        assert(plan_views(out@) =~= middle + self.percussion(prefix@));
    }
}

pub open spec fn name_views(names: Seq<&str>) -> Seq<Seq<char>> {
    names.map_values(|n: &str| n@)
}

pub open spec fn voices(device: u32, instance: u32, all: u32) -> Voices {
    Voices { device, instance, all }
}

pub open spec fn opna_names() -> Seq<Seq<char>> {
    seq![
        "FM-1"@,
        "FM-2"@,
        "FM-3"@,
        "FM-4"@,
        "FM-5"@,
        "FM-6"@,
        "ADPCM-A-1"@,
        "ADPCM-A-2"@,
        "ADPCM-A-3"@,
        "ADPCM-A-4"@,
        "ADPCM-A-5"@,
        "ADPCM-A-6"@,
        "ADPCM-B"@,
    ]
}

/// Stems, if the chip is there.
pub open spec fn if_present(clock: u32, stems: Seq<StemPlanView>) -> Seq<StemPlanView> {
    if clock > 0 {
        stems
    } else {
        Seq::empty()
    }
}

/// The stems of an FM chip.
pub open spec fn fm_stems(device: u32, prefix: Seq<char>) -> Seq<StemPlanView> {
    voices(device, 0, ALL_FM_CHANNELS).numbered(prefix, 9) + voices(
        device,
        0,
        ALL_FM_CHANNELS,
    ).percussion(prefix)
}

/// The stems that are always rendered.
pub open spec fn common_stems() -> Seq<StemPlanView> {
    voices(DEV_AY8910, 0, ALL_AY_CHANNELS).named("AY-"@, seq!["A"@, "B"@, "C"@]) + voices(
        DEV_K051649,
        0,
        ALL_SCC_CHANNELS,
    ).numbered("SCC-"@, 5) + fm_stems(DEV_YM2413, "YM-"@) + fm_stems(DEV_YM3526, "OPL-"@)
        + fm_stems(DEV_YM3812, "OPL2-"@)
}

/// The stems of a file: those of the common chips, and those of the others that it uses.
pub open spec fn stems_of(v: VgmFileView) -> Seq<StemPlanView> {
    common_stems() + if_present(
        v.clocks.ym2612,
        voices(DEV_YM2612, 0, ALL_YM2612_CHANNELS).named(
            "YM2612-"@,
            seq!["FM-1"@, "FM-2"@, "FM-3"@, "FM-4"@, "FM-5"@, "FM-6"@, "DAC"@],
        ),
    ) + if_present(
        v.clocks.ym2151,
        voices(DEV_YM2151, 0, ALL_YM2151_CHANNELS).numbered("YM2151-"@, 8),
    ) + if_present(
        v.clocks.ym2203,
        voices(DEV_YM2203, 0, ALL_YM2203_CHANNELS).numbered("YM2203-"@, 3),
    ) + if_present(
        v.clocks.ym2608,
        voices(DEV_YM2608, 0, ALL_OPNA_CHANNELS).named("YM2608-"@, opna_names()),
    ) + if_present(
        v.clocks.ym2610,
        voices(DEV_YM2610, 0, ALL_OPNA_CHANNELS).named("YM2610-"@, opna_names()),
    ) + if_present(
        v.clocks.segapcm,
        voices(DEV_SEGAPCM, 0, ALL_SEGAPCM_CHANNELS).numbered("SegaPCM-"@, 16),
    ) + if_present(
        v.clocks.rf5c68,
        voices(DEV_RF5C68, 0, ALL_RF5C_CHANNELS).numbered("RF5C68-"@, 8),
    ) + if_present(
        v.clocks.rf5c164,
        voices(DEV_RF5C68, 1, ALL_RF5C_CHANNELS).numbered("RF5C164-"@, 8),
    ) + if_present(
        v.clocks.gb_dmg,
        voices(DEV_GB_DMG, 0, ALL_GB_CHANNELS).named(
            "GB-"@,
            seq!["Square-1"@, "Square-2"@, "Wave"@, "Noise"@],
        ),
    ) + if_present(
        v.clocks.nes_apu,
        voices(DEV_NES_APU, 0, ALL_NES_CHANNELS).named(
            "NES-"@,
            seq!["Square-1"@, "Square-2"@, "Triangle"@, "Noise"@, "DPCM"@],
        ),
    )
}

fn push_common(out: &mut Vec<StemPlan>)
    ensures
        plan_views(final(out)@) == plan_views(old(out)@) + common_stems(),
{
    let ghost start = plan_views(out@);
    let ay: Vec<&str> = vec!["A", "B", "C"];
    assert(name_views(ay@) =~= seq!["A"@, "B"@, "C"@]);
    Voices { device: DEV_AY8910, instance: 0, all: ALL_AY_CHANNELS }.push_named(out, "AY-", &ay);
    Voices { device: DEV_K051649, instance: 0, all: ALL_SCC_CHANNELS }.push_numbered(
        out,
        "SCC-",
        5,
    );
    Voices { device: DEV_YM2413, instance: 0, all: ALL_FM_CHANNELS }.push_fm(out, "YM-");
    Voices { device: DEV_YM3526, instance: 0, all: ALL_FM_CHANNELS }.push_fm(out, "OPL-");
    Voices { device: DEV_YM3812, instance: 0, all: ALL_FM_CHANNELS }.push_fm(out, "OPL2-");
    assert(plan_views(out@) =~= start + common_stems());
}

fn push_opna(out: &mut Vec<StemPlan>, device: u32, prefix: &str)
    ensures
        plan_views(final(out)@) == plan_views(old(out)@) + voices(
            device,
            0,
            ALL_OPNA_CHANNELS,
        ).named(prefix@, opna_names()),
{
    let names: Vec<&str> = vec![
        "FM-1",
        "FM-2",
        "FM-3",
        "FM-4",
        "FM-5",
        "FM-6",
        "ADPCM-A-1",
        "ADPCM-A-2",
        "ADPCM-A-3",
        "ADPCM-A-4",
        "ADPCM-A-5",
        "ADPCM-A-6",
        "ADPCM-B",
    ];
    assert(name_views(names@) =~= opna_names());
    Voices { device, instance: 0, all: ALL_OPNA_CHANNELS }.push_named(out, prefix, &names);
}

/// Lists the stems of a file.
#[verifier::spinoff_prover]
#[verifier::rlimit(30)]
pub fn plan_stems(vgm: &VgmFile) -> (r: Vec<StemPlan>)
    ensures
        plan_views(r@) == stems_of(vgm@),
{
    let mut out: Vec<StemPlan> = Vec::new();
    assert(plan_views(out@) =~= Seq::<StemPlanView>::empty());
    push_common(&mut out);
    assert(plan_views(out@) =~= common_stems());
    if vgm.ym2612_clock > 0 {
        let names: Vec<&str> = vec!["FM-1", "FM-2", "FM-3", "FM-4", "FM-5", "FM-6", "DAC"];
        assert(name_views(names@) =~= seq![
            "FM-1"@,
            "FM-2"@,
            "FM-3"@,
            "FM-4"@,
            "FM-5"@,
            "FM-6"@,
            "DAC"@,
        ]);
        Voices { device: DEV_YM2612, instance: 0, all: ALL_YM2612_CHANNELS }.push_named(
            &mut out,
            "YM2612-",
            &names,
        );
    }
    if vgm.ym2151_clock > 0 {
        Voices { device: DEV_YM2151, instance: 0, all: ALL_YM2151_CHANNELS }.push_numbered(
            &mut out,
            "YM2151-",
            8,
        );
    }
    if vgm.ym2203_clock > 0 {
        Voices { device: DEV_YM2203, instance: 0, all: ALL_YM2203_CHANNELS }.push_numbered(
            &mut out,
            "YM2203-",
            3,
        );
    }
    if vgm.ym2608_clock > 0 {
        push_opna(&mut out, DEV_YM2608, "YM2608-");
    }
    if vgm.ym2610_clock > 0 {
        push_opna(&mut out, DEV_YM2610, "YM2610-");
    }
    if vgm.segapcm_clock > 0 {
        Voices { device: DEV_SEGAPCM, instance: 0, all: ALL_SEGAPCM_CHANNELS }.push_numbered(
            &mut out,
            "SegaPCM-",
            16,
        );
    }
    if vgm.rf5c68_clock > 0 {
        Voices { device: DEV_RF5C68, instance: 0, all: ALL_RF5C_CHANNELS }.push_numbered(
            &mut out,
            "RF5C68-",
            8,
        );
    }
    if vgm.rf5c164_clock > 0 {
        Voices { device: DEV_RF5C68, instance: 1, all: ALL_RF5C_CHANNELS }.push_numbered(
            &mut out,
            "RF5C164-",
            8,
        );
    }
    if vgm.gb_dmg_clock > 0 {
        let names: Vec<&str> = vec!["Square-1", "Square-2", "Wave", "Noise"];
        assert(name_views(names@) =~= seq!["Square-1"@, "Square-2"@, "Wave"@, "Noise"@]);
        Voices { device: DEV_GB_DMG, instance: 0, all: ALL_GB_CHANNELS }.push_named(
            &mut out,
            "GB-",
            &names,
        );
    }
    if vgm.nes_apu_clock > 0 {
        let names: Vec<&str> = vec!["Square-1", "Square-2", "Triangle", "Noise", "DPCM"];
        assert(name_views(names@) =~= seq![
            "Square-1"@,
            "Square-2"@,
            "Triangle"@,
            "Noise"@,
            "DPCM"@,
        ]);
        Voices { device: DEV_NES_APU, instance: 0, all: ALL_NES_CHANNELS }.push_named(
            &mut out,
            "NES-",
            &names,
        );
    }
    assert(plan_views(out@) =~= stems_of(vgm@));
    out
}

/// The mutes of a stem, in the order in which the player is to get them.
pub fn stem_mutes(plan: &StemPlan) -> (r: Vec<Mute>)
    ensures
        r@ == everything_muted().push(plan.solo),
{
    let mut r: Vec<Mute> = mute_everything();
    r.push(plan.solo);
    r
}

/// Of all that is muted, this lets exactly one channel be heard again.
pub open spec fn unmutes_one(m: Mute) -> bool {
    exists|k: int, ch: u32| #[trigger]
        solo_of(m, k, ch) && 0 <= k < everything_muted().len() && ch < 32
}

/// This unmutes channel `ch` of the chip that stands at `k` among the muted ones.
pub open spec fn solo_of(m: Mute, k: int, ch: u32) -> bool {
    let muted = everything_muted()[k];
    &&& in_mask(muted.mask, ch)
    &&& m.device == muted.device
    &&& m.instance == muted.instance
    &&& forall|c: u32| c < 32 && in_mask(muted.mask, c) ==> (#[trigger] in_mask(m.mask, c)) == (c
        != ch)
}

/// The masks of this many channels.
pub open spec fn is_full(all: u32, n: u32) -> bool {
    ||| all == ALL_FM_CHANNELS && n == 14
    ||| all == ALL_AY_CHANNELS && n == 3
    ||| all == ALL_SCC_CHANNELS && n == 5
    ||| all == ALL_YM2612_CHANNELS && n == 7
    ||| all == ALL_YM2151_CHANNELS && n == 8
    ||| all == ALL_OPNA_CHANNELS && n == 13
    ||| all == ALL_SEGAPCM_CHANNELS && n == 16
    ||| all == ALL_GB_CHANNELS && n == 4
}

proof fn lemma_full(all: u32, n: u32, ch: u32)
    requires
        is_full(all, n),
        ch < n,
    ensures
        in_mask(all, ch),
        ch < 32,
{
    assert((all >> ch) & 1 == 1) by (bit_vector)
        requires
            ch < n,
            (all == 0x3fff && n == 14) || (all == 0x7 && n == 3) || (all == 0x1f && n == 5) || (all
                == 0x7f && n == 7) || (all == 0xff && n == 8) || (all == 0x1fff && n == 13) || (all
                == 0xffff && n == 16) || (all == 0xf && n == 4),
    ;
}

proof fn lemma_stem_unmutes_one(v: Voices, name: Seq<char>, ch: u32, k: int, n: u32)
    requires
        0 <= k < everything_muted().len(),
        everything_muted()[k] == mute(v.device, v.instance, v.all),
        is_full(v.all, n),
        ch < n,
    ensures
        unmutes_one(v.stem(name, ch).solo),
{
    lemma_full(v.all, n, ch);
    let m = v.stem(name, ch).solo;
    assert forall|c: u32| c < 32 && in_mask(v.all, c) implies (#[trigger] in_mask(m.mask, c)) == (c
        != ch) by {
        law_solo(v.all, ch, c);
    }
    assert(solo_of(m, k, ch));
}

/// Every one of the stems unmutes one channel.
pub open spec fn all_unmute_one(stems: Seq<StemPlanView>) -> bool {
    forall|i: int| 0 <= i < stems.len() ==> unmutes_one((#[trigger] stems[i]).solo)
}

proof fn lemma_numbered(v: Voices, prefix: Seq<char>, count: nat, k: int, n: u32)
    requires
        0 <= k < everything_muted().len(),
        everything_muted()[k] == mute(v.device, v.instance, v.all),
        is_full(v.all, n),
        count <= n,
    ensures
        all_unmute_one(v.numbered(prefix, count)),
{
    assert forall|i: int| 0 <= i < count implies unmutes_one(
        (#[trigger] v.numbered(prefix, count)[i]).solo,
    ) by {
        lemma_stem_unmutes_one(v, prefix + decimal(i + 1), i as u32, k, n);
    }
}

proof fn lemma_named(v: Voices, prefix: Seq<char>, names: Seq<Seq<char>>, k: int, n: u32)
    requires
        0 <= k < everything_muted().len(),
        everything_muted()[k] == mute(v.device, v.instance, v.all),
        is_full(v.all, n),
        names.len() <= n,
    ensures
        all_unmute_one(v.named(prefix, names)),
{
    assert forall|i: int| 0 <= i < names.len() implies unmutes_one(
        (#[trigger] v.named(prefix, names)[i]).solo,
    ) by {
        lemma_stem_unmutes_one(v, prefix + names[i], i as u32, k, n);
    }
}

proof fn lemma_fm(device: u32, prefix: Seq<char>, k: int)
    requires
        0 <= k < everything_muted().len(),
        everything_muted()[k] == mute(device, 0, ALL_FM_CHANNELS),
    ensures
        all_unmute_one(fm_stems(device, prefix)),
{
    let v = voices(device, 0, ALL_FM_CHANNELS);
    lemma_numbered(v, prefix, 9, k, 14);
    lemma_stem_unmutes_one(v, prefix + "BD"@, 9, k, 14);
    lemma_stem_unmutes_one(v, prefix + "HH"@, 13, k, 14);
    lemma_stem_unmutes_one(v, prefix + "SD"@, 10, k, 14);
    lemma_stem_unmutes_one(v, prefix + "TOM"@, 11, k, 14);
    lemma_stem_unmutes_one(v, prefix + "CYM"@, 12, k, 14);
    assert(all_unmute_one(v.percussion(prefix)));
    lemma_joined(v.numbered(prefix, 9), v.percussion(prefix));
}

proof fn lemma_joined(a: Seq<StemPlanView>, b: Seq<StemPlanView>)
    requires
        all_unmute_one(a),
        all_unmute_one(b),
    ensures
        all_unmute_one(a + b),
{
    assert forall|i: int| 0 <= i < (a + b).len() implies unmutes_one(
        (#[trigger] (a + b)[i]).solo,
    ) by {
        if i < a.len() {
            assert((a + b)[i] == a[i]);
        } else {
            assert((a + b)[i] == b[i - a.len()]);
        }
    }
}

/// A stem lets exactly one channel be heard: whatever the file, behind everything that is
/// muted each stem unmutes one channel of one chip, and leaves all its others muted.
pub proof fn law_stems_unmute_one_channel(v: VgmFileView)
    ensures
        all_unmute_one(stems_of(v)),
{
    let ay = voices(DEV_AY8910, 0, ALL_AY_CHANNELS).named("AY-"@, seq!["A"@, "B"@, "C"@]);
    lemma_named(voices(DEV_AY8910, 0, ALL_AY_CHANNELS), "AY-"@, seq!["A"@, "B"@, "C"@], 1, 3);
    let scc = voices(DEV_K051649, 0, ALL_SCC_CHANNELS).numbered("SCC-"@, 5);
    lemma_numbered(voices(DEV_K051649, 0, ALL_SCC_CHANNELS), "SCC-"@, 5, 2, 5);
    lemma_fm(DEV_YM2413, "YM-"@, 0);
    lemma_fm(DEV_YM3526, "OPL-"@, 3);
    lemma_fm(DEV_YM3812, "OPL2-"@, 4);
    lemma_joined(ay, scc);
    lemma_joined(ay + scc, fm_stems(DEV_YM2413, "YM-"@));
    lemma_joined(ay + scc + fm_stems(DEV_YM2413, "YM-"@), fm_stems(DEV_YM3526, "OPL-"@));
    lemma_joined(
        ay + scc + fm_stems(DEV_YM2413, "YM-"@) + fm_stems(DEV_YM3526, "OPL-"@),
        fm_stems(DEV_YM3812, "OPL2-"@),
    );
    let s0 = common_stems();
    let v1 = voices(DEV_YM2612, 0, ALL_YM2612_CHANNELS);
    let n1 = seq!["FM-1"@, "FM-2"@, "FM-3"@, "FM-4"@, "FM-5"@, "FM-6"@, "DAC"@];
    lemma_named(v1, "YM2612-"@, n1, 5, 7);
    let s1 = s0 + if_present(v.clocks.ym2612, v1.named("YM2612-"@, n1));
    lemma_joined(s0, if_present(v.clocks.ym2612, v1.named("YM2612-"@, n1)));
    let v2 = voices(DEV_YM2151, 0, ALL_YM2151_CHANNELS);
    lemma_numbered(v2, "YM2151-"@, 8, 6, 8);
    let s2 = s1 + if_present(v.clocks.ym2151, v2.numbered("YM2151-"@, 8));
    lemma_joined(s1, if_present(v.clocks.ym2151, v2.numbered("YM2151-"@, 8)));
    let v3 = voices(DEV_YM2203, 0, ALL_YM2203_CHANNELS);
    lemma_numbered(v3, "YM2203-"@, 3, 7, 3);
    let s3 = s2 + if_present(v.clocks.ym2203, v3.numbered("YM2203-"@, 3));
    lemma_joined(s2, if_present(v.clocks.ym2203, v3.numbered("YM2203-"@, 3)));
    let v4 = voices(DEV_YM2608, 0, ALL_OPNA_CHANNELS);
    lemma_named(v4, "YM2608-"@, opna_names(), 8, 13);
    let s4 = s3 + if_present(v.clocks.ym2608, v4.named("YM2608-"@, opna_names()));
    lemma_joined(s3, if_present(v.clocks.ym2608, v4.named("YM2608-"@, opna_names())));
    let v5 = voices(DEV_YM2610, 0, ALL_OPNA_CHANNELS);
    lemma_named(v5, "YM2610-"@, opna_names(), 9, 13);
    let s5 = s4 + if_present(v.clocks.ym2610, v5.named("YM2610-"@, opna_names()));
    lemma_joined(s4, if_present(v.clocks.ym2610, v5.named("YM2610-"@, opna_names())));
    let v6 = voices(DEV_SEGAPCM, 0, ALL_SEGAPCM_CHANNELS);
    lemma_numbered(v6, "SegaPCM-"@, 16, 10, 16);
    let s6 = s5 + if_present(v.clocks.segapcm, v6.numbered("SegaPCM-"@, 16));
    lemma_joined(s5, if_present(v.clocks.segapcm, v6.numbered("SegaPCM-"@, 16)));
    let v7 = voices(DEV_RF5C68, 0, ALL_RF5C_CHANNELS);
    lemma_numbered(v7, "RF5C68-"@, 8, 11, 8);
    let s7 = s6 + if_present(v.clocks.rf5c68, v7.numbered("RF5C68-"@, 8));
    lemma_joined(s6, if_present(v.clocks.rf5c68, v7.numbered("RF5C68-"@, 8)));
    let v8 = voices(DEV_RF5C68, 1, ALL_RF5C_CHANNELS);
    lemma_numbered(v8, "RF5C164-"@, 8, 12, 8);
    let s8 = s7 + if_present(v.clocks.rf5c164, v8.numbered("RF5C164-"@, 8));
    lemma_joined(s7, if_present(v.clocks.rf5c164, v8.numbered("RF5C164-"@, 8)));
    let v9 = voices(DEV_GB_DMG, 0, ALL_GB_CHANNELS);
    let n9 = seq!["Square-1"@, "Square-2"@, "Wave"@, "Noise"@];
    lemma_named(v9, "GB-"@, n9, 13, 4);
    let s9 = s8 + if_present(v.clocks.gb_dmg, v9.named("GB-"@, n9));
    lemma_joined(s8, if_present(v.clocks.gb_dmg, v9.named("GB-"@, n9)));
    let v10 = voices(DEV_NES_APU, 0, ALL_NES_CHANNELS);
    let n10 = seq!["Square-1"@, "Square-2"@, "Triangle"@, "Noise"@, "DPCM"@];
    lemma_named(v10, "NES-"@, n10, 14, 5);
    lemma_joined(s9, if_present(v.clocks.nes_apu, v10.named("NES-"@, n10)));
}

/// No two stems have the same name.
pub open spec fn names_differ(stems: Seq<StemPlanView>) -> bool {
    forall|i: int, j: int|
        0 <= i < j < stems.len() ==> (#[trigger] stems[i]).name != (#[trigger] stems[j]).name
}

/// A name up to its first dash.
spec fn start_of(name: Seq<char>) -> Seq<char>
    decreases name.len(),
{
    if name.len() == 0 {
        Seq::empty()
    } else if name[0] == '-' {
        seq!['-']
    } else {
        seq![name[0]] + start_of(name.skip(1))
    }
}

/// A text that ends with its only dash.
spec fn is_start(s: Seq<char>) -> bool {
    &&& s.len() > 0
    &&& s.last() == '-'
    &&& forall|i: int| 0 <= i < s.len() - 1 ==> #[trigger] s[i] != '-'
}

/// A number that tells the starts of the chips' names apart, by their length and letters.
spec fn mark_of(start: Seq<char>) -> int {
    0x20_0000 * start.len() + 0x4000 * (start[0] as int) + 0x80 * (start[start.len() - 2] as int)
        + (start[start.len() - 3] as int)
}

/// The place of the chip whose stems' names start in this way.
spec fn chip_of(start: Seq<char>) -> int {
    let mark = mark_of(start);
    if mark == 7_367_873 {
        0
    } else if mark == 9_757_123 {
        1
    } else if mark == 7_759_577 {
        2
    } else if mark == 9_692_752 {
        3
    } else if mark == 11_786_572 {
        4
    } else if mark == 16_144_689 {
        5
    } else if mark == 16_144_565 {
        6
    } else if mark == 16_144_816 {
        7
    } else if mark == 16_145_456 {
        8
    } else if mark == 16_144_433 {
        9
    } else if mark == 18_147_011 {
        10
    } else if mark == 16_030_774 {
        11
    } else if mark == 18_127_414 {
        12
    } else if mark == 7_463_239 {
        13
    } else if mark == 9_677_253 {
        14
    } else {
        -1
    }
}

/// A number that tells the names of channels apart.
spec fn tag_of(name: Seq<char>) -> int {
    0x4000 * name.len() + 0x80 * (name[0] as int) + (name.last() as int)
}

spec fn are_of_chip(stems: Seq<StemPlanView>, chip: int) -> bool {
    forall|i: int| 0 <= i < stems.len() ==> chip_of(start_of((#[trigger] stems[i]).name)) == chip
}

spec fn are_of_chips_below(stems: Seq<StemPlanView>, chip: int) -> bool {
    forall|i: int| 0 <= i < stems.len() ==> chip_of(start_of((#[trigger] stems[i]).name)) < chip
}

/// No two texts are the same.
spec fn all_differ(names: Seq<Seq<char>>) -> bool {
    forall|i: int, j: int|
        0 <= i < j < names.len() ==> (#[trigger] names[i]) != (#[trigger] names[j])
}

proof fn lemma_starts()
    ensures
        is_start("AY-"@) && chip_of("AY-"@) == 0,
        is_start("SCC-"@) && chip_of("SCC-"@) == 1,
        is_start("YM-"@) && chip_of("YM-"@) == 2,
        is_start("OPL-"@) && chip_of("OPL-"@) == 3,
        is_start("OPL2-"@) && chip_of("OPL2-"@) == 4,
        is_start("YM2612-"@) && chip_of("YM2612-"@) == 5,
        is_start("YM2151-"@) && chip_of("YM2151-"@) == 6,
        is_start("YM2203-"@) && chip_of("YM2203-"@) == 7,
        is_start("YM2608-"@) && chip_of("YM2608-"@) == 8,
        is_start("YM2610-"@) && chip_of("YM2610-"@) == 9,
        is_start("SegaPCM-"@) && chip_of("SegaPCM-"@) == 10,
        is_start("RF5C68-"@) && chip_of("RF5C68-"@) == 11,
        is_start("RF5C164-"@) && chip_of("RF5C164-"@) == 12,
        is_start("GB-"@) && chip_of("GB-"@) == 13,
        is_start("NES-"@) && chip_of("NES-"@) == 14,
{
    reveal_strlit("AY-");
    assert("AY-"@[0] == 'A' && "AY-"@[1] == 'Y' && "AY-"@[2] == '-');
    reveal_strlit("SCC-");
    assert("SCC-"@[0] == 'S' && "SCC-"@[1] == 'C' && "SCC-"@[2] == 'C' && "SCC-"@[3] == '-');
    reveal_strlit("YM-");
    assert("YM-"@[0] == 'Y' && "YM-"@[1] == 'M' && "YM-"@[2] == '-');
    reveal_strlit("OPL-");
    assert("OPL-"@[0] == 'O' && "OPL-"@[1] == 'P' && "OPL-"@[2] == 'L' && "OPL-"@[3] == '-');
    reveal_strlit("OPL2-");
    assert("OPL2-"@[0] == 'O' && "OPL2-"@[1] == 'P' && "OPL2-"@[2] == 'L' && "OPL2-"@[3] == '2' && "OPL2-"@[4] == '-');
    reveal_strlit("YM2612-");
    assert("YM2612-"@[0] == 'Y' && "YM2612-"@[1] == 'M' && "YM2612-"@[2] == '2' && "YM2612-"@[3] == '6' && "YM2612-"@[4] == '1' && "YM2612-"@[5] == '2' && "YM2612-"@[6] == '-');
    reveal_strlit("YM2151-");
    assert("YM2151-"@[0] == 'Y' && "YM2151-"@[1] == 'M' && "YM2151-"@[2] == '2' && "YM2151-"@[3] == '1' && "YM2151-"@[4] == '5' && "YM2151-"@[5] == '1' && "YM2151-"@[6] == '-');
    reveal_strlit("YM2203-");
    assert("YM2203-"@[0] == 'Y' && "YM2203-"@[1] == 'M' && "YM2203-"@[2] == '2' && "YM2203-"@[3] == '2' && "YM2203-"@[4] == '0' && "YM2203-"@[5] == '3' && "YM2203-"@[6] == '-');
    reveal_strlit("YM2608-");
    assert("YM2608-"@[0] == 'Y' && "YM2608-"@[1] == 'M' && "YM2608-"@[2] == '2' && "YM2608-"@[3] == '6' && "YM2608-"@[4] == '0' && "YM2608-"@[5] == '8' && "YM2608-"@[6] == '-');
    reveal_strlit("YM2610-");
    assert("YM2610-"@[0] == 'Y' && "YM2610-"@[1] == 'M' && "YM2610-"@[2] == '2' && "YM2610-"@[3] == '6' && "YM2610-"@[4] == '1' && "YM2610-"@[5] == '0' && "YM2610-"@[6] == '-');
    reveal_strlit("SegaPCM-");
    assert("SegaPCM-"@[0] == 'S' && "SegaPCM-"@[1] == 'e' && "SegaPCM-"@[2] == 'g' && "SegaPCM-"@[3] == 'a' && "SegaPCM-"@[4] == 'P' && "SegaPCM-"@[5] == 'C' && "SegaPCM-"@[6] == 'M' && "SegaPCM-"@[7] == '-');
    reveal_strlit("RF5C68-");
    assert("RF5C68-"@[0] == 'R' && "RF5C68-"@[1] == 'F' && "RF5C68-"@[2] == '5' && "RF5C68-"@[3] == 'C' && "RF5C68-"@[4] == '6' && "RF5C68-"@[5] == '8' && "RF5C68-"@[6] == '-');
    reveal_strlit("RF5C164-");
    assert("RF5C164-"@[0] == 'R' && "RF5C164-"@[1] == 'F' && "RF5C164-"@[2] == '5' && "RF5C164-"@[3] == 'C' && "RF5C164-"@[4] == '1' && "RF5C164-"@[5] == '6' && "RF5C164-"@[6] == '4' && "RF5C164-"@[7] == '-');
    reveal_strlit("GB-");
    assert("GB-"@[0] == 'G' && "GB-"@[1] == 'B' && "GB-"@[2] == '-');
    reveal_strlit("NES-");
    assert("NES-"@[0] == 'N' && "NES-"@[1] == 'E' && "NES-"@[2] == 'S' && "NES-"@[3] == '-');
}

proof fn lemma_start_of(start: Seq<char>, rest: Seq<char>)
    requires
        is_start(start),
    ensures
        start_of(start + rest) == start,
    decreases start.len(),
{
    let name = start + rest;
    if start.len() == 1 {
        assert(name[0] == '-');
        assert(start =~= seq!['-']);
    } else {
        let tail = start.skip(1);
        assert(name[0] == start[0]);
        assert forall|i: int| 0 <= i < tail.len() - 1 implies #[trigger] tail[i] != '-' by {
            assert(tail[i] == start[i + 1]);
        }
        assert(tail.last() == start.last());
        lemma_start_of(tail, rest);
        assert(name.skip(1) =~= tail + rest);
        assert(start =~= seq![start[0]] + tail);
    }
}

proof fn lemma_ends_differ(start: Seq<char>, a: Seq<char>, b: Seq<char>)
    requires
        a != b,
    ensures
        start + a != start + b,
{
    if start + a == start + b {
        assert(a =~= (start + a).skip(start.len() as int));
        assert(b =~= (start + b).skip(start.len() as int));
    }
}

proof fn lemma_chips_apart(a: Seq<StemPlanView>, b: Seq<StemPlanView>, chip: int)
    requires
        names_differ(a),
        names_differ(b),
        are_of_chips_below(a, chip),
        are_of_chip(b, chip),
    ensures
        names_differ(a + b),
        are_of_chips_below(a + b, chip + 1),
{
    let all = a + b;
    assert forall|i: int| 0 <= i < all.len() implies chip_of(start_of((#[trigger] all[i]).name))
        <= chip by {
        if i < a.len() {
            assert(all[i] == a[i]);
        } else {
            assert(all[i] == b[i - a.len()]);
        }
    }
    assert forall|i: int, j: int| 0 <= i < j < all.len() implies (#[trigger] all[i]).name != (
    #[trigger] all[j]).name by {
        if j < a.len() {
            assert(all[i] == a[i] && all[j] == a[j]);
        } else if i < a.len() {
            assert(all[i] == a[i] && all[j] == b[j - a.len()]);
        } else {
            assert(all[i] == b[i - a.len()] && all[j] == b[j - a.len()]);
        }
    }
}

proof fn lemma_present_apart(a: Seq<StemPlanView>, b: Seq<StemPlanView>, chip: int, clock: u32)
    requires
        names_differ(a),
        names_differ(b),
        are_of_chips_below(a, chip),
        are_of_chip(b, chip),
    ensures
        names_differ(a + if_present(clock, b)),
        are_of_chips_below(a + if_present(clock, b), chip + 1),
{
    lemma_chips_apart(a, if_present(clock, b), chip);
}

proof fn lemma_numbered_names(v: Voices, start: Seq<char>, n: nat)
    requires
        is_start(start),
    ensures
        names_differ(v.numbered(start, n)),
        are_of_chip(v.numbered(start, n), chip_of(start)),
{
    let stems = v.numbered(start, n);
    assert forall|i: int| 0 <= i < stems.len() implies chip_of(start_of((#[trigger] stems[i]).name))
        == chip_of(start) by {
        lemma_start_of(start, decimal(i + 1));
    }
    assert forall|i: int, j: int| 0 <= i < j < stems.len() implies (#[trigger] stems[i]).name != (
    #[trigger] stems[j]).name by {
        law_decimal_reads_back(i + 1);
        law_decimal_reads_back(j + 1);
        lemma_ends_differ(start, decimal(i + 1), decimal(j + 1));
    }
}

proof fn lemma_named_names(v: Voices, start: Seq<char>, names: Seq<Seq<char>>)
    requires
        is_start(start),
        all_differ(names),
    ensures
        names_differ(v.named(start, names)),
        are_of_chip(v.named(start, names), chip_of(start)),
{
    let stems = v.named(start, names);
    assert forall|i: int| 0 <= i < stems.len() implies chip_of(start_of((#[trigger] stems[i]).name))
        == chip_of(start) by {
        lemma_start_of(start, names[i]);
    }
    assert forall|i: int, j: int| 0 <= i < j < stems.len() implies (#[trigger] stems[i]).name != (
    #[trigger] stems[j]).name by {
        lemma_ends_differ(start, names[i], names[j]);
    }
}

proof fn lemma_fm_names(device: u32, start: Seq<char>)
    requires
        is_start(start),
    ensures
        names_differ(fm_stems(device, start)),
        are_of_chip(fm_stems(device, start), chip_of(start)),
{
    let v = voices(device, 0, ALL_FM_CHANNELS);
    let numbers = v.numbered(start, 9);
    let drums = v.percussion(start);
    let all = fm_stems(device, start);
    let ends = seq!["BD"@, "HH"@, "SD"@, "TOM"@, "CYM"@];
    lemma_numbered_names(v, start, 9);
    reveal_strlit("BD");
    assert("BD"@[0] == 'B' && "BD"@.last() == 'D');
    reveal_strlit("HH");
    assert("HH"@[0] == 'H' && "HH"@.last() == 'H');
    reveal_strlit("SD");
    assert("SD"@[0] == 'S' && "SD"@.last() == 'D');
    reveal_strlit("TOM");
    assert("TOM"@[0] == 'T' && "TOM"@.last() == 'M');
    reveal_strlit("CYM");
    assert("CYM"@[0] == 'C' && "CYM"@.last() == 'M');
    assert forall|i: int, j: int| 0 <= i < j < ends.len() implies (#[trigger] ends[i]) != (
    #[trigger] ends[j]) by {
        assert(i == 0 || i == 1 || i == 2 || i == 3 || i == 4);
        assert(j == 0 || j == 1 || j == 2 || j == 3 || j == 4);
        assert(tag_of(ends[i]) != tag_of(ends[j]));
    }
    assert(all_differ(ends));
    assert forall|k: int| 0 <= k < 5 implies (#[trigger] drums[k]).name == start + ends[k] by {}
    assert forall|i: int| 0 <= i < all.len() implies chip_of(start_of((#[trigger] all[i]).name))
        == chip_of(start) by {
        if i < 9 {
            assert(all[i] == numbers[i]);
        } else {
            assert(all[i] == drums[i - 9]);
            lemma_start_of(start, ends[i - 9]);
        }
    }
    assert forall|i: int, j: int| 0 <= i < j < all.len() implies (#[trigger] all[i]).name != (
    #[trigger] all[j]).name by {
        if j < 9 {
            assert(all[i] == numbers[i] && all[j] == numbers[j]);
        } else if i < 9 {
            assert(all[i] == numbers[i] && all[j] == drums[j - 9]);
            law_decimal_reads_back(i + 1);
            let k = j - 9;
            assert(k == 0 || k == 1 || k == 2 || k == 3 || k == 4);
            assert(!('0' <= ends[k][0] && ends[k][0] <= '9'));
            lemma_ends_differ(start, decimal(i + 1), ends[j - 9]);
        } else {
            assert(all[i] == drums[i - 9] && all[j] == drums[j - 9]);
            lemma_ends_differ(start, ends[i - 9], ends[j - 9]);
        }
    }
}

proof fn lemma_ay_channels()
    ensures
        all_differ(seq!["A"@, "B"@, "C"@]),
{
    reveal_strlit("A");
    assert("A"@[0] == 'A' && "A"@.last() == 'A');
    reveal_strlit("B");
    assert("B"@[0] == 'B' && "B"@.last() == 'B');
    reveal_strlit("C");
    assert("C"@[0] == 'C' && "C"@.last() == 'C');
    let names = seq!["A"@, "B"@, "C"@];
    assert forall|i: int, j: int| 0 <= i < j < names.len() implies (#[trigger] names[i]) != (
    #[trigger] names[j]) by {
        assert(i == 0 || i == 1 || i == 2);
        assert(j == 0 || j == 1 || j == 2);
        assert(tag_of(names[i]) != tag_of(names[j]));
    }
}

proof fn lemma_fm_channels()
    ensures
        all_differ(seq!["FM-1"@, "FM-2"@, "FM-3"@, "FM-4"@, "FM-5"@, "FM-6"@, "DAC"@]),
{
    reveal_strlit("FM-1");
    assert("FM-1"@[0] == 'F' && "FM-1"@.last() == '1');
    reveal_strlit("FM-2");
    assert("FM-2"@[0] == 'F' && "FM-2"@.last() == '2');
    reveal_strlit("FM-3");
    assert("FM-3"@[0] == 'F' && "FM-3"@.last() == '3');
    reveal_strlit("FM-4");
    assert("FM-4"@[0] == 'F' && "FM-4"@.last() == '4');
    reveal_strlit("FM-5");
    assert("FM-5"@[0] == 'F' && "FM-5"@.last() == '5');
    reveal_strlit("FM-6");
    assert("FM-6"@[0] == 'F' && "FM-6"@.last() == '6');
    reveal_strlit("DAC");
    assert("DAC"@[0] == 'D' && "DAC"@.last() == 'C');
    let names = seq!["FM-1"@, "FM-2"@, "FM-3"@, "FM-4"@, "FM-5"@, "FM-6"@, "DAC"@];
    assert forall|i: int, j: int| 0 <= i < j < names.len() implies (#[trigger] names[i]) != (
    #[trigger] names[j]) by {
        assert(i == 0 || i == 1 || i == 2 || i == 3 || i == 4 || i == 5 || i == 6);
        assert(j == 0 || j == 1 || j == 2 || j == 3 || j == 4 || j == 5 || j == 6);
        assert(tag_of(names[i]) != tag_of(names[j]));
    }
}

proof fn lemma_gb_channels()
    ensures
        all_differ(seq!["Square-1"@, "Square-2"@, "Wave"@, "Noise"@]),
{
    reveal_strlit("Square-1");
    assert("Square-1"@[0] == 'S' && "Square-1"@.last() == '1');
    reveal_strlit("Square-2");
    assert("Square-2"@[0] == 'S' && "Square-2"@.last() == '2');
    reveal_strlit("Wave");
    assert("Wave"@[0] == 'W' && "Wave"@.last() == 'e');
    reveal_strlit("Noise");
    assert("Noise"@[0] == 'N' && "Noise"@.last() == 'e');
    let names = seq!["Square-1"@, "Square-2"@, "Wave"@, "Noise"@];
    assert forall|i: int, j: int| 0 <= i < j < names.len() implies (#[trigger] names[i]) != (
    #[trigger] names[j]) by {
        assert(i == 0 || i == 1 || i == 2 || i == 3);
        assert(j == 0 || j == 1 || j == 2 || j == 3);
        assert(tag_of(names[i]) != tag_of(names[j]));
    }
}

proof fn lemma_nes_channels()
    ensures
        all_differ(seq!["Square-1"@, "Square-2"@, "Triangle"@, "Noise"@, "DPCM"@]),
{
    reveal_strlit("Square-1");
    assert("Square-1"@[0] == 'S' && "Square-1"@.last() == '1');
    reveal_strlit("Square-2");
    assert("Square-2"@[0] == 'S' && "Square-2"@.last() == '2');
    reveal_strlit("Triangle");
    assert("Triangle"@[0] == 'T' && "Triangle"@.last() == 'e');
    reveal_strlit("Noise");
    assert("Noise"@[0] == 'N' && "Noise"@.last() == 'e');
    reveal_strlit("DPCM");
    assert("DPCM"@[0] == 'D' && "DPCM"@.last() == 'M');
    let names = seq!["Square-1"@, "Square-2"@, "Triangle"@, "Noise"@, "DPCM"@];
    assert forall|i: int, j: int| 0 <= i < j < names.len() implies (#[trigger] names[i]) != (
    #[trigger] names[j]) by {
        assert(i == 0 || i == 1 || i == 2 || i == 3 || i == 4);
        assert(j == 0 || j == 1 || j == 2 || j == 3 || j == 4);
        assert(tag_of(names[i]) != tag_of(names[j]));
    }
}

proof fn lemma_opna_channels()
    ensures
        all_differ(opna_names()),
{
    reveal_strlit("FM-1");
    assert("FM-1"@[0] == 'F' && "FM-1"@.last() == '1');
    reveal_strlit("FM-2");
    assert("FM-2"@[0] == 'F' && "FM-2"@.last() == '2');
    reveal_strlit("FM-3");
    assert("FM-3"@[0] == 'F' && "FM-3"@.last() == '3');
    reveal_strlit("FM-4");
    assert("FM-4"@[0] == 'F' && "FM-4"@.last() == '4');
    reveal_strlit("FM-5");
    assert("FM-5"@[0] == 'F' && "FM-5"@.last() == '5');
    reveal_strlit("FM-6");
    assert("FM-6"@[0] == 'F' && "FM-6"@.last() == '6');
    reveal_strlit("ADPCM-A-1");
    assert("ADPCM-A-1"@[0] == 'A' && "ADPCM-A-1"@.last() == '1');
    reveal_strlit("ADPCM-A-2");
    assert("ADPCM-A-2"@[0] == 'A' && "ADPCM-A-2"@.last() == '2');
    reveal_strlit("ADPCM-A-3");
    assert("ADPCM-A-3"@[0] == 'A' && "ADPCM-A-3"@.last() == '3');
    reveal_strlit("ADPCM-A-4");
    assert("ADPCM-A-4"@[0] == 'A' && "ADPCM-A-4"@.last() == '4');
    reveal_strlit("ADPCM-A-5");
    assert("ADPCM-A-5"@[0] == 'A' && "ADPCM-A-5"@.last() == '5');
    reveal_strlit("ADPCM-A-6");
    assert("ADPCM-A-6"@[0] == 'A' && "ADPCM-A-6"@.last() == '6');
    reveal_strlit("ADPCM-B");
    assert("ADPCM-B"@[0] == 'A' && "ADPCM-B"@.last() == 'B');
    let names = opna_names();
    assert forall|i: int, j: int| 0 <= i < j < names.len() implies (#[trigger] names[i]) != (
    #[trigger] names[j]) by {
        assert(i == 0 || i == 1 || i == 2 || i == 3 || i == 4 || i == 5 || i == 6 || i == 7 || i == 8 || i == 9 || i == 10 || i == 11 || i == 12);
        assert(j == 0 || j == 1 || j == 2 || j == 3 || j == 4 || j == 5 || j == 6 || j == 7 || j == 8 || j == 9 || j == 10 || j == 11 || j == 12);
        assert(tag_of(names[i]) != tag_of(names[j]));
    }
}

/// No two stems of a file have the same name.
pub proof fn law_stem_names_differ(v: VgmFileView)
    ensures
        names_differ(stems_of(v)),
{
    lemma_starts();
    lemma_ay_channels();
    lemma_fm_channels();
    lemma_gb_channels();
    lemma_nes_channels();
    lemma_opna_channels();
    let ay = voices(DEV_AY8910, 0, ALL_AY_CHANNELS).named("AY-"@, seq!["A"@, "B"@, "C"@]);
    let scc = voices(DEV_K051649, 0, ALL_SCC_CHANNELS).numbered("SCC-"@, 5);
    lemma_named_names(voices(DEV_AY8910, 0, ALL_AY_CHANNELS), "AY-"@, seq!["A"@, "B"@, "C"@]);
    lemma_numbered_names(voices(DEV_K051649, 0, ALL_SCC_CHANNELS), "SCC-"@, 5);
    lemma_fm_names(DEV_YM2413, "YM-"@);
    lemma_fm_names(DEV_YM3526, "OPL-"@);
    lemma_fm_names(DEV_YM3812, "OPL2-"@);
    lemma_chips_apart(ay, scc, 1);
    let a = ay + scc;
    lemma_chips_apart(a, fm_stems(DEV_YM2413, "YM-"@), 2);
    let b = a + fm_stems(DEV_YM2413, "YM-"@);
    lemma_chips_apart(b, fm_stems(DEV_YM3526, "OPL-"@), 3);
    let c = b + fm_stems(DEV_YM3526, "OPL-"@);
    lemma_chips_apart(c, fm_stems(DEV_YM3812, "OPL2-"@), 4);
    let s0 = common_stems();
    let v1 = voices(DEV_YM2612, 0, ALL_YM2612_CHANNELS);
    let n1 = seq!["FM-1"@, "FM-2"@, "FM-3"@, "FM-4"@, "FM-5"@, "FM-6"@, "DAC"@];
    lemma_named_names(v1, "YM2612-"@, n1);
    lemma_present_apart(s0, v1.named("YM2612-"@, n1), 5, v.clocks.ym2612);
    let s1 = s0 + if_present(v.clocks.ym2612, v1.named("YM2612-"@, n1));
    let v2 = voices(DEV_YM2151, 0, ALL_YM2151_CHANNELS);
    lemma_numbered_names(v2, "YM2151-"@, 8);
    lemma_present_apart(s1, v2.numbered("YM2151-"@, 8), 6, v.clocks.ym2151);
    let s2 = s1 + if_present(v.clocks.ym2151, v2.numbered("YM2151-"@, 8));
    let v3 = voices(DEV_YM2203, 0, ALL_YM2203_CHANNELS);
    lemma_numbered_names(v3, "YM2203-"@, 3);
    lemma_present_apart(s2, v3.numbered("YM2203-"@, 3), 7, v.clocks.ym2203);
    let s3 = s2 + if_present(v.clocks.ym2203, v3.numbered("YM2203-"@, 3));
    let v4 = voices(DEV_YM2608, 0, ALL_OPNA_CHANNELS);
    lemma_named_names(v4, "YM2608-"@, opna_names());
    lemma_present_apart(s3, v4.named("YM2608-"@, opna_names()), 8, v.clocks.ym2608);
    let s4 = s3 + if_present(v.clocks.ym2608, v4.named("YM2608-"@, opna_names()));
    let v5 = voices(DEV_YM2610, 0, ALL_OPNA_CHANNELS);
    lemma_named_names(v5, "YM2610-"@, opna_names());
    lemma_present_apart(s4, v5.named("YM2610-"@, opna_names()), 9, v.clocks.ym2610);
    let s5 = s4 + if_present(v.clocks.ym2610, v5.named("YM2610-"@, opna_names()));
    let v6 = voices(DEV_SEGAPCM, 0, ALL_SEGAPCM_CHANNELS);
    lemma_numbered_names(v6, "SegaPCM-"@, 16);
    lemma_present_apart(s5, v6.numbered("SegaPCM-"@, 16), 10, v.clocks.segapcm);
    let s6 = s5 + if_present(v.clocks.segapcm, v6.numbered("SegaPCM-"@, 16));
    let v7 = voices(DEV_RF5C68, 0, ALL_RF5C_CHANNELS);
    lemma_numbered_names(v7, "RF5C68-"@, 8);
    lemma_present_apart(s6, v7.numbered("RF5C68-"@, 8), 11, v.clocks.rf5c68);
    let s7 = s6 + if_present(v.clocks.rf5c68, v7.numbered("RF5C68-"@, 8));
    let v8 = voices(DEV_RF5C68, 1, ALL_RF5C_CHANNELS);
    lemma_numbered_names(v8, "RF5C164-"@, 8);
    lemma_present_apart(s7, v8.numbered("RF5C164-"@, 8), 12, v.clocks.rf5c164);
    let s8 = s7 + if_present(v.clocks.rf5c164, v8.numbered("RF5C164-"@, 8));
    let v9 = voices(DEV_GB_DMG, 0, ALL_GB_CHANNELS);
    let n9 = seq!["Square-1"@, "Square-2"@, "Wave"@, "Noise"@];
    lemma_named_names(v9, "GB-"@, n9);
    lemma_present_apart(s8, v9.named("GB-"@, n9), 13, v.clocks.gb_dmg);
    let s9 = s8 + if_present(v.clocks.gb_dmg, v9.named("GB-"@, n9));
    let v10 = voices(DEV_NES_APU, 0, ALL_NES_CHANNELS);
    let n10 = seq!["Square-1"@, "Square-2"@, "Triangle"@, "Noise"@, "DPCM"@];
    lemma_named_names(v10, "NES-"@, n10);
    lemma_present_apart(s9, v10.named("NES-"@, n10), 14, v.clocks.nes_apu);
}

/// Where the SCC's clock stands in a file's header.
pub const SCC_CLOCK_AT: usize = 0x9C;

/// The bytes of a file as the player is to get them, which reads them anew: with the SCC's
/// clock that was found to be right, where the file has room for it.
pub open spec fn ready_bytes(v: VgmFileView) -> Seq<u8> {
    let c = v.clocks.scc as int;
    if c == 0 || v.raw_data.len() < SCC_CLOCK_AT + 4 {
        v.raw_data
    } else {
        v.raw_data.update(SCC_CLOCK_AT as int, (c % 256) as u8).update(
            SCC_CLOCK_AT + 1,
            (c / 256 % 256) as u8,
        ).update(SCC_CLOCK_AT + 2, (c / 0x1_0000 % 256) as u8).update(
            SCC_CLOCK_AT + 3,
            (c / 0x100_0000) as u8,
        )
    }
}

pub fn player_ready_bytes(vgm: &VgmFile) -> (r: Vec<u8>)
    ensures
        r@ == ready_bytes(vgm@),
{
    let mut data: Vec<u8> = Vec::new();
    let mut i: usize = 0;
    while i < vgm.raw_data.len()
        invariant
            i <= vgm.raw_data.len(),
            data@ == vgm.raw_data@.take(i as int),
        decreases vgm.raw_data.len() - i,
    {
        data.push(vgm.raw_data[i]);
        i += 1;
        assert(vgm.raw_data@.take(i as int) =~= vgm.raw_data@.take(i - 1).push(
            vgm.raw_data@[i - 1],
        ));
    }
    assert(vgm.raw_data@.take(i as int) =~= vgm.raw_data@);
    let c: u32 = vgm.scc_clock;
    if c != 0 && data.len() >= SCC_CLOCK_AT + 4 {
        data.set(SCC_CLOCK_AT, (c % 256) as u8);
        data.set(SCC_CLOCK_AT + 1, (c / 256 % 256) as u8);
        data.set(SCC_CLOCK_AT + 2, (c / 0x1_0000 % 256) as u8);
        data.set(SCC_CLOCK_AT + 3, (c / 0x100_0000) as u8);
    }
    data
}

/// Stereo sound, in the player's own units.
#[derive(Debug)]
pub struct RenderedAudio {
    pub sample_rate: u32,
    pub left: Vec<i32>,
    pub right: Vec<i32>,
}

/// What a `RenderedAudio` holds.
#[verifier::ext_equal]
pub struct RenderedAudioView {
    pub sample_rate: u32,
    pub left: Seq<i32>,
    pub right: Seq<i32>,
}

impl View for RenderedAudio {
    type V = RenderedAudioView;

    open spec fn view(&self) -> RenderedAudioView {
        RenderedAudioView { sample_rate: self.sample_rate, left: self.left@, right: self.right@ }
    }
}

/// A stem: what one channel plays.
#[derive(Debug)]
pub struct Stem {
    pub name: String,
    pub audio: RenderedAudio,
}

/// The samples, cut or filled up with silence to a length.
pub open spec fn resized(samples: Seq<i32>, n: nat) -> Seq<i32> {
    Seq::new(
        n,
        |i: int|
            if i < samples.len() {
                samples[i]
            } else {
                0i32
            },
    )
}

fn resize(samples: &Vec<i32>, n: usize) -> (r: Vec<i32>)
    ensures
        r@ == resized(samples@, n as nat),
{
    let mut out: Vec<i32> = Vec::new();
    let mut i: usize = 0;
    while i < n
        invariant
            i <= n,
            out@ == resized(samples@, i as nat),
        decreases n - i,
    {
        if i < samples.len() {
            out.push(samples[i]);
        } else {
            out.push(0);
        }
        i += 1;
        assert(out@ =~= resized(samples@, i as nat));
    }
    out
}

/// What the player gave, at the length that the file declares: a player may stop short.
pub fn finish_render(left: &Vec<i32>, right: &Vec<i32>, total: usize) -> (r: RenderedAudio)
    ensures
        r@ == (RenderedAudioView {
            sample_rate: VGM_SAMPLE_RATE,
            left: resized(left@, total as nat),
            right: resized(right@, total as nat),
        }),
{
    RenderedAudio {
        sample_rate: VGM_SAMPLE_RATE,
        left: resize(left, total),
        right: resize(right, total),
    }
}

/// Nothing but zeros.
pub open spec fn silent(samples: Seq<i32>) -> bool {
    forall|i: int| 0 <= i < samples.len() ==> #[trigger] samples[i] == 0
}

fn all_zero(samples: &Vec<i32>) -> (r: bool)
    ensures
        r == silent(samples@),
{
    let mut i: usize = 0;
    while i < samples.len()
        invariant
            i <= samples.len(),
            forall|k: int| 0 <= k < i ==> #[trigger] samples@[k] == 0,
        decreases samples.len() - i,
    {
        if samples[i] != 0 {
            assert(samples@[i as int] != 0);
            return false;
        }
        i += 1;
    }
    true
}

pub fn is_silent(audio: &RenderedAudio) -> (r: bool)
    ensures
        r == (silent(audio.left@) && silent(audio.right@)),
{
    all_zero(&audio.left) && all_zero(&audio.right)
}

fn copy_part(samples: &Vec<i32>, start: usize, end: usize) -> (r: Vec<i32>)
    requires
        start <= end <= samples.len(),
    ensures
        r@ == samples@.subrange(start as int, end as int),
{
    let mut out: Vec<i32> = Vec::new();
    let mut i: usize = start;
    while i < end
        invariant
            start <= i <= end <= samples.len(),
            out@ == samples@.subrange(start as int, i as int),
        decreases end - i,
    {
        out.push(samples[i]);
        i += 1;
        assert(samples@.subrange(start as int, i as int) =~= samples@.subrange(
            start as int,
            i - 1,
        ).push(samples@[i - 1]));
    }
    out
}

/// Cuts a part out of the sound.
pub fn slice(audio: &RenderedAudio, start: usize, end: usize) -> (r: RenderedAudio)
    requires
        start <= end <= audio.left.len(),
        end <= audio.right.len(),
    ensures
        r@ == (RenderedAudioView {
            sample_rate: audio.sample_rate,
            left: audio.left@.subrange(start as int, end as int),
            right: audio.right@.subrange(start as int, end as int),
        }),
{
    RenderedAudio {
        sample_rate: audio.sample_rate,
        left: copy_part(&audio.left, start, end),
        right: copy_part(&audio.right, start, end),
    }
}

/// The two parts of a sound that is cut in two make up the whole.
pub proof fn law_parts_make_the_whole(samples: Seq<i32>, at: int)
    requires
        0 <= at <= samples.len(),
    ensures
        samples.subrange(0, at) + samples.subrange(at, samples.len() as int) == samples,
{
    assert(samples.subrange(0, at) + samples.subrange(at, samples.len() as int) =~= samples);
}

/// How far a sample is from zero.
pub open spec fn size(x: i32) -> int {
    if x < 0 {
        -(x as int)
    } else {
        x as int
    }
}

/// The greatest size among samples.
pub open spec fn largest(samples: Seq<i32>) -> int
    decreases samples.len(),
{
    if samples.len() == 0 {
        0
    } else {
        let before = largest(samples.drop_last());
        if size(samples.last()) > before {
            size(samples.last())
        } else {
            before
        }
    }
}

fn loudest(samples: &Vec<i32>) -> (r: u32)
    ensures
        r == largest(samples@),
{
    let mut best: u32 = 0;
    let mut i: usize = 0;
    assert(samples@.take(0) =~= Seq::<i32>::empty());
    while i < samples.len()
        invariant
            i <= samples.len(),
            best == largest(samples@.take(i as int)),
        decreases samples.len() - i,
    {
        proof {
            assert(samples@.take(i + 1).drop_last() =~= samples@.take(i as int));
            assert(samples@.take(i + 1).last() == samples[i as int]);
        }
        let x: i64 = samples[i] as i64;
        let s: u32 = if x < 0 {
            (-x) as u32
        } else {
            x as u32
        };
        if s > best {
            best = s;
        }
        i += 1;
    }
    assert(samples@.take(i as int) =~= samples@);
    best
}

/// The loudest sample of a sound.
pub fn peak(audio: &RenderedAudio) -> (r: u32)
    ensures
        r == largest(audio.left@) || r == largest(audio.right@),
        largest(audio.left@) <= r,
        largest(audio.right@) <= r,
{
    let l: u32 = loudest(&audio.left);
    let r: u32 = loudest(&audio.right);
    if l > r {
        l
    } else {
        r
    }
}

/// No sample is louder than the peak, and a sound is silent just where its peak is zero.
pub proof fn law_peak_bounds(samples: Seq<i32>)
    ensures
        0 <= largest(samples),
        forall|i: int| 0 <= i < samples.len() ==> size(#[trigger] samples[i]) <= largest(samples),
        silent(samples) == (largest(samples) == 0),
    decreases samples.len(),
{
    if samples.len() > 0 {
        let d = samples.drop_last();
        law_peak_bounds(d);
        assert forall|i: int| 0 <= i < samples.len() implies size(#[trigger] samples[i])
            <= largest(samples) by {
            if i < d.len() {
                assert(d[i] == samples[i]);
            }
        }
        if largest(samples) == 0 {
            assert forall|i: int| 0 <= i < samples.len() implies #[trigger] samples[i] == 0 by {
                assert(size(samples[i]) <= 0);
            }
        }
        if silent(samples) {
            assert forall|i: int| 0 <= i < d.len() implies #[trigger] d[i] == 0 by {
                assert(samples[i] == 0);
            }
            assert(samples[samples.len() - 1] == 0);
        }
    }
}

} // verus!
