//! What a FastTracker 2 file says, and what is read of it.
use crate::formats::base::{Cell, SampleView};
use crate::formats::fasttracker2::{
    cell_at, cell_of, complete, decoded, effective, envelope_of, extended_block, instrument_at,
    instruments_at, law_reachable_samples, lemma_all_placed, module_of, number_of, parts_of,
    patterns_at, placed, plays_in, reachable, row_at, rows_at, sample_of, slots_of, sound_at,
    undelta16, undelta8, InstrumentView, RawCell, Slot,
};
use vstd::prelude::*;

verus! {

/// The number of a file's two bytes from a place on, the low one first.
pub open spec fn word(data: Seq<u8>, at: int) -> int {
    data[at] + 256 * data[at + 1]
}

/// The number of a file's four bytes from a place on, the lowest first.
pub open spec fn long(data: Seq<u8>, at: int) -> int {
    word(data, at) + 65536 * word(data, at + 2)
}

pub open spec fn one_if(b: bool) -> int {
    if b {
        1
    } else {
        0
    }
}

/// A cell stands packed at a place: the first byte tells which of the five fields follow, and a
/// field that does not follow is zero.
pub open spec fn packed_at(
    data: Seq<u8>,
    at: int,
    cell: RawCell,
    end: int,
    note: bool,
    instrument: bool,
    volume: bool,
    effect: bool,
    param: bool,
    spare: int,
) -> bool {
    let second = at + 1 + one_if(note);
    let third = second + one_if(instrument);
    let fourth = third + one_if(volume);
    let fifth = fourth + one_if(effect);
    &&& 0 <= spare < 4
    &&& data[at] == 128 + 32 * spare + one_if(note) + 2 * one_if(instrument) + 4 * one_if(volume)
        + 8 * one_if(effect) + 16 * one_if(param)
    &&& cell.note == if note {
        data[at + 1]
    } else {
        0
    }
    &&& cell.instrument == if instrument {
        data[second]
    } else {
        0
    }
    &&& cell.volume == if volume {
        data[third]
    } else {
        0
    }
    &&& cell.effect == if effect {
        data[fourth]
    } else {
        0
    }
    &&& cell.effect_param == if param {
        data[fifth]
    } else {
        0
    }
    &&& end == fifth + one_if(param)
}

/// A cell stands at a place of a file, packed or as its five bytes, and ends before `end`.
pub open spec fn stands_at(data: Seq<u8>, at: int, cell: RawCell, end: int) -> bool {
    ||| {
        &&& data[at] < 128
        &&& data[at] == cell.note
        &&& data[at + 1] == cell.instrument
        &&& data[at + 2] == cell.volume
        &&& data[at + 3] == cell.effect
        &&& data[at + 4] == cell.effect_param
        &&& end == at + 5
    }
    ||| exists|n: bool, i: bool, v: bool, e: bool, p: bool, spare: int| #[trigger]
        packed_at(data, at, cell, end, n, i, v, e, p, spare)
}

proof fn lemma_stands(data: Seq<u8>, at: int, cell: RawCell, end: int)
    requires
        0 <= at,
        stands_at(data, at, cell, end),
        end <= data.len(),
    ensures
        cell_at(data, at) == Some((cell, end)),
        at < end,
{
    if data[at] < 128 {
    } else {
        let (n, i, v, e, p, spare) = choose|n: bool, i: bool, v: bool, e: bool, p: bool, spare: int|
            #[trigger] packed_at(data, at, cell, end, n, i, v, e, p, spare);
        let b = data[at] as int;
        assert(spare == 0 || spare == 1 || spare == 2 || spare == 3);
        assert(b % 2 == one_if(n));
        assert(b / 2 % 2 == one_if(i));
        assert(b / 4 % 2 == one_if(v));
        assert(b / 8 % 2 == one_if(e));
        assert(b / 16 % 2 == one_if(p));
    }
}

/// Cells stand one behind the other in a file.
pub open spec fn stand_in_turn(data: Seq<u8>, cells: Seq<RawCell>, at: Seq<int>) -> bool {
    &&& at.len() == cells.len() + 1
    &&& 0 <= at[0]
    &&& at.last() <= data.len()
    &&& forall|k: int|
        0 <= k < cells.len() ==> stands_at(data, #[trigger] at[k], cells[k], at[k + 1])
}

proof fn lemma_places(data: Seq<u8>, cells: Seq<RawCell>, at: Seq<int>, k: int)
    requires
        stand_in_turn(data, cells, at),
        0 <= k <= cells.len(),
    ensures
        0 <= at[k],
        at[k] <= data.len(),
    decreases cells.len() - k,
{
    lemma_places_from(data, cells, at, k);
    lemma_places_to(data, cells, at, k);
}

proof fn lemma_places_from(data: Seq<u8>, cells: Seq<RawCell>, at: Seq<int>, k: int)
    requires
        stand_in_turn(data, cells, at),
        0 <= k <= cells.len(),
    ensures
        0 <= at[k],
    decreases k,
{
    if k > 0 {
        lemma_places_from(data, cells, at, k - 1);
        assert(stands_at(data, at[k - 1], cells[k - 1], at[k - 1 + 1]));
    }
}

proof fn lemma_places_to(data: Seq<u8>, cells: Seq<RawCell>, at: Seq<int>, k: int)
    requires
        stand_in_turn(data, cells, at),
        0 <= k <= cells.len(),
    ensures
        at[k] <= data.len(),
    decreases cells.len() - k,
{
    if k < cells.len() {
        lemma_places_to(data, cells, at, k + 1);
        assert(stands_at(data, at[k], cells[k], at[k + 1]));
    }
}

proof fn lemma_row(data: Seq<u8>, cells: Seq<RawCell>, at: Seq<int>, k: int, n: nat)
    requires
        stand_in_turn(data, cells, at),
        0 <= k,
        k + n <= cells.len(),
    ensures
        row_at(data, at[k], n) == Some((cells.subrange(k, k + n), at[k + n])),
    decreases n,
{
    if n == 0 {
        assert(cells.subrange(k, k) =~= Seq::empty());
    } else {
        lemma_row(data, cells, at, k, (n - 1) as nat);
        let last = k + n - 1;
        lemma_places(data, cells, at, last);
        lemma_places(data, cells, at, last + 1);
        assert(stands_at(data, at[last], cells[last], at[last + 1]));
        lemma_stands(data, at[last], cells[last], at[last + 1]);
        assert(cells.subrange(k, k + n - 1).push(cells[last]) =~= cells.subrange(k, k + n));
    }
}

proof fn lemma_rows(data: Seq<u8>, cells: Seq<RawCell>, at: Seq<int>, n: nat, channels: nat)
    requires
        stand_in_turn(data, cells, at),
        n * channels <= cells.len(),
    ensures
        rows_at(data, at[0], n, channels) matches Some((rows, end)) && {
            &&& end == at[(n * channels) as int]
            &&& rows.len() == n
            &&& forall|r: int|
                0 <= r < n ==> #[trigger] rows[r] == cells.subrange(
                    r * channels,
                    r * channels + channels,
                )
        },
    decreases n,
{
    if n == 0 {
        assert(0 * channels == 0);
    } else {
        let m = (n - 1) as nat;
        assert(m * channels + channels == n * channels) by (nonlinear_arith)
            requires
                m + 1 == n,
        ;
        lemma_rows(data, cells, at, m, channels);
        lemma_row(data, cells, at, (m * channels) as int, channels);
    }
}

/// The headers of a file's patterns stand at these places: the first behind the file's header,
/// and every other behind the cells of the one before.
pub open spec fn pattern_heads(data: Seq<u8>, heads: Seq<int>) -> bool {
    &&& heads.len() == word(data, 70) + 1
    &&& heads[0] == 60 + long(data, 60)
    &&& forall|i: int, j: int|
        0 <= i && j == i + 1 && j < heads.len() ==> #[trigger] heads[j] == #[trigger] heads[i]
            + long(data, heads[i]) + word(data, heads[i] + 7)
}

proof fn lemma_pattern(data: Seq<u8>, heads: Seq<int>, n: nat, channels: nat, p: int)
    requires
        heads.len() > n,
        forall|i: int, j: int|
            0 <= i && j == i + 1 && j < heads.len() ==> #[trigger] heads[j] == #[trigger] heads[i]
                + long(data, heads[i]) + word(data, heads[i] + 7),
        patterns_at(data, heads[0], n, channels) is Some,
        0 <= p < n,
    ensures
        ({
            let (patterns, end) = patterns_at(data, heads[0], n, channels)->0;
            &&& end == heads[n as int]
            &&& patterns.len() == n
            &&& rows_at(
                data,
                heads[p] + long(data, heads[p]),
                word(data, heads[p] + 5) as nat,
                channels,
            ) matches Some((rows, _)) && rows == patterns[p]
        }),
    decreases n,
{
    if p < n - 1 {
        lemma_pattern(data, heads, (n - 1) as nat, channels, p);
    } else if n > 1 {
        lemma_pattern(data, heads, (n - 1) as nat, channels, 0);
    } else {
        assert(patterns_at(data, heads[0], 0, channels) == Some(
            (Seq::<Seq<Seq<RawCell>>>::empty(), heads[0]),
        ));
    }
    assert(heads[n as int] == heads[n - 1] + long(data, heads[n - 1]) + word(
        data,
        heads[n - 1] + 7,
    ));
}

/// What a cell of a module says is what its five fields say: notes count from C-0, the volume
/// column sets the volume from 0x10 to 0x50, an effect is taken as it stands, and where there is
/// none a command of the volume column takes its place.
pub open spec fn says(c: Cell, raw: RawCell) -> bool {
    let note = 1 <= raw.note <= 96;
    let effect = raw.effect != 0 || raw.effect_param != 0;
    let v = raw.volume;
    &&& c.midi_note is Some <==> note && c.sample_index is Some
    &&& c.midi_note matches Some(k) ==> k == raw.note + 11
    &&& c.note_off <==> c.midi_note is None && (raw.note == 97 || raw.effect == 0x14)
    &&& c.volume is Some <==> 0x10 <= v <= 0x50
    &&& c.volume matches Some(x) ==> x == v - 0x10
    &&& effect ==> c.effect == Some(raw.effect as u32) && c.effect_param == Some(
        raw.effect_param as u32,
    )
    &&& !effect ==> {
        &&& v == 0 ==> c.effect is None && c.effect_param is None
        &&& 0x10 <= v <= 0x50 && note ==> c.effect is None && c.effect_param is None
        &&& 0x10 <= v <= 0x50 && !note ==> c.effect == Some(0xCu32) && c.effect_param == c.volume
        &&& 0x60 <= v < 0x70 ==> c.effect == Some(0xAu32) && c.effect_param == Some(
            (v - 0x60) as u32,
        )
        &&& 0x70 <= v < 0x80 ==> c.effect == Some(0xAu32) && c.effect_param == Some(
            (16 * (v - 0x70)) as u32,
        )
        &&& 0x80 <= v < 0x90 ==> c.effect == Some(0xEu32) && c.effect_param == Some(
            (0xB0 + (v - 0x80)) as u32,
        )
        &&& 0x90 <= v < 0xA0 ==> c.effect == Some(0xEu32) && c.effect_param == Some(
            (0xA0 + (v - 0x90)) as u32,
        )
        &&& 0xB0 <= v < 0xC0 ==> c.effect == Some(0x4u32) && c.effect_param == Some(
            (v - 0xB0) as u32,
        )
        &&& 0xC0 <= v < 0xD0 ==> c.effect == Some(0x8u32) && c.effect_param == Some(
            (17 * (v - 0xC0)) as u32,
        )
        &&& 0xF0 <= v ==> c.effect == Some(0x3u32) && c.effect_param == Some(0u32)
        &&& (0 < v < 0x10 || 0x50 < v < 0x60 || 0xA0 <= v < 0xB0 || 0xD0 <= v < 0xF0)
            ==> c.effect is None && c.effect_param is None
    }
}

proof fn lemma_says(raw: RawCell, slot: Option<Slot>, list: Seq<Slot>)
    ensures
        says(cell_of(raw, slot, list), raw),
{
    let v = raw.volume;
    assert(v / 16 == 6 ==> v % 16 == v - 0x60);
    assert(v / 16 == 7 ==> v % 16 == v - 0x70);
    assert(v / 16 == 8 ==> v % 16 == v - 0x80);
    assert(v / 16 == 9 ==> v % 16 == v - 0x90);
    assert(v / 16 == 0xB ==> v % 16 == v - 0xB0);
    assert(v / 16 == 0xC ==> v % 16 == v - 0xC0);
}

proof fn lemma_cells(
    data: Seq<u8>,
    rates: Seq<u32>,
    heads: Seq<int>,
    p: int,
    cells: Seq<RawCell>,
    at: Seq<int>,
    r: int,
    c: int,
)
    requires
        complete(data),
        pattern_heads(data, heads),
        0 <= p < word(data, 70),
        stand_in_turn(data, cells, at),
        at[0] == heads[p] + long(data, heads[p]),
        cells.len() == word(data, heads[p] + 5) * word(data, 68),
        0 <= r < word(data, heads[p] + 5),
        0 <= c < word(data, 68),
    ensures
        module_of(data, rates).num_channels == word(data, 68),
        module_of(data, rates).patterns.len() == word(data, 70),
        module_of(data, rates).patterns[p].len() == word(data, heads[p] + 5),
        module_of(data, rates).patterns[p][r].len() == word(data, 68),
        ({
            let slots = slots_of(parts_of(data)->0.patterns, parts_of(data)->0.instruments);
            module_of(data, rates).patterns[p][r][c] == cell_of(
                cells[r * word(data, 68) + c],
                slots[p][r][c],
                reachable(slots),
            )
        }),
{
    let channels = word(data, 68) as nat;
    let rows = word(data, heads[p] + 5) as nat;
    lemma_pattern(data, heads, word(data, 70) as nat, channels, p);
    lemma_rows(data, cells, at, rows, channels);
    assert(r * channels + channels <= rows * channels) by (nonlinear_arith)
        requires
            0 <= r < rows,
    ;
    assert(0 <= r * channels) by (nonlinear_arith)
        requires
            0 <= r,
    ;
    let raw = cells[r * channels + c];
    let patterns = parts_of(data)->0.patterns;
    assert(patterns[p][r] == cells.subrange(r * channels, r * channels + channels));
    assert(patterns[p][r][c] == raw);
}

/// The rows of a pattern are read from where its header says they begin, as many as it counts,
/// a cell for every channel of the module, and every cell says what stands there.
pub proof fn law_cells_are_read_back(
    data: Seq<u8>,
    rates: Seq<u32>,
    heads: Seq<int>,
    p: int,
    cells: Seq<RawCell>,
    at: Seq<int>,
    r: int,
    c: int,
)
    requires
        complete(data),
        pattern_heads(data, heads),
        0 <= p < word(data, 70),
        stand_in_turn(data, cells, at),
        at[0] == heads[p] + long(data, heads[p]),
        cells.len() == word(data, heads[p] + 5) * word(data, 68),
        0 <= r < word(data, heads[p] + 5),
        0 <= c < word(data, 68),
    ensures
        module_of(data, rates).num_channels == word(data, 68),
        module_of(data, rates).patterns.len() == word(data, 70),
        module_of(data, rates).patterns[p].len() == word(data, heads[p] + 5),
        module_of(data, rates).patterns[p][r].len() == word(data, 68),
        says(module_of(data, rates).patterns[p][r][c], cells[r * word(data, 68) + c]),
{
    let slots = slots_of(parts_of(data)->0.patterns, parts_of(data)->0.instruments);
    lemma_cells(data, rates, heads, p, cells, at, r, c);
    lemma_says(cells[r * word(data, 68) + c], slots[p][r][c], reachable(slots));
}

/// The number from -128 to 127 that a byte stands for.
pub open spec fn either_way(b: u8) -> int {
    if b < 128 {
        b as int
    } else {
        b - 256
    }
}

/// The frame's high byte is the one before with a byte of the sound added, and its low byte is
/// zero.
pub open spec fn adds_byte(pcm: Seq<u8>, data: Seq<u8>, sound: int, i: int) -> bool {
    &&& pcm[2 * i] == 0
    &&& pcm[2 * i + 1] == if i == 0 {
        data[sound] as int
    } else {
        (pcm[2 * i - 1] + data[sound + i]) % 256
    }
}

/// The frame is the one before with two bytes of the sound added.
pub open spec fn adds_word(pcm: Seq<u8>, data: Seq<u8>, sound: int, i: int) -> bool {
    word(pcm, 2 * i) == if i == 0 {
        word(data, sound)
    } else {
        (word(pcm, 2 * i - 2) + word(data, sound + 2 * i)) % 65536
    }
}

/// The samples of a module and the places of the file that they were read from.
pub open spec fn read_from(
    data: Seq<u8>,
    rates: Seq<u32>,
    s: SampleView,
    h: int,
    sound: int,
) -> bool {
    let wide = data[h + 14] / 16 % 2 == 1;
    let frames = if wide {
        2int
    } else {
        1
    };
    &&& s.pcm16.len() == if wide {
        long(data, h) / 2 * 2
    } else {
        2 * long(data, h)
    }
    &&& s.loop_start == long(data, h + 4) / frames
    &&& s.loop_length == if data[h + 14] % 4 == 0 {
        0
    } else {
        long(data, h + 8) / frames
    }
    &&& data[h + 12] <= 64 ==> s.volume == data[h + 12]
    &&& data[h + 12] > 64 ==> s.volume == 64
    &&& s.sample_rate_hz == rates[16512 + 128 * either_way(data[h + 16]) + either_way(data[h + 13])]
    &&& s.base_note == 60
    &&& s.finetune == 0
    &&& data[h + 15] > 0 ==> s.pan == data[h + 15] - 128
    &&& data[h + 15] == 0 ==> s.pan == -127
    &&& !wide ==> forall|i: int|
        0 <= i < long(data, h) ==> #[trigger] adds_byte(s.pcm16, data, sound, i)
    &&& wide ==> forall|i: int|
        0 <= i < long(data, h) / 2 ==> #[trigger] adds_word(s.pcm16, data, sound, i)
}

proof fn lemma_narrow(raw: Seq<u8>, i: int)
    requires
        0 <= i < raw.len(),
    ensures
        ({
            let d = decoded(raw, false);
            &&& d[2 * i] == 0
            &&& d[2 * i + 1] == if i == 0 {
                raw[0] as int
            } else {
                (d[2 * i - 1] + raw[i]) % 256
            }
        }),
{
    let d = decoded(raw, false);
    assert((2 * i) % 2 == 0 && (2 * i + 1) % 2 == 1 && (2 * i + 1) / 2 == i);
    if i == 0 {
        assert(undelta8(raw, -1) == 0);
        assert(undelta8(raw, 0) == raw[0]);
    } else {
        assert((2 * i - 1) % 2 == 1 && (2 * i - 1) / 2 == i - 1);
        assert(0 <= undelta8(raw, i - 1) < 256) by {
            assert(undelta8(raw, i - 1) == (undelta8(raw, i - 2) + raw[i - 1]) % 256);
        }
    }
}

proof fn lemma_wide(raw: Seq<u8>, i: int)
    requires
        0 <= i < raw.len() / 2,
    ensures
        ({
            let d = decoded(raw, true);
            word(d, 2 * i) == if i == 0 {
                word(raw, 0)
            } else {
                (word(d, 2 * i - 2) + word(raw, 2 * i)) % 65536
            }
        }),
{
    lemma_wide_word(raw, i);
    if i == 0 {
        assert(undelta16(raw, -1) == 0);
        assert(undelta16(raw, 0) == word(raw, 0));
    } else {
        lemma_wide_word(raw, i - 1);
        assert(undelta16(raw, i) == (undelta16(raw, i - 1) + word(raw, 2 * i)) % 65536);
    }
}

proof fn lemma_wide_word(raw: Seq<u8>, i: int)
    requires
        0 <= i < raw.len() / 2,
    ensures
        word(decoded(raw, true), 2 * i) == undelta16(raw, i),
{
    assert((2 * i) % 2 == 0 && (2 * i) / 2 == i && (2 * i + 1) % 2 == 1 && (2 * i + 1) / 2 == i);
    let u = undelta16(raw, i);
    assert(0 <= u < 65536);
}

proof fn lemma_number(list: Seq<Slot>, x: Slot)
    requires
        list.contains(x),
        list.len() <= u32::MAX,
    ensures
        number_of(list, x) matches Some(k) && 1 <= k <= list.len() && list[k - 1] == x,
    decreases list.len(),
{
    if list.last() != x {
        let i = choose|i: int| 0 <= i < list.len() && list[i] == x;
        assert(list.drop_last()[i] == x);
        lemma_number(list.drop_last(), x);
    }
}

/// A note plays the sample that its instrument keeps for its key: the sample that the cell
/// numbers was read from the header and the sound of the instrument's sample, and it has the
/// instrument's envelopes.
pub proof fn law_notes_play_the_sample_of_their_key(
    data: Seq<u8>,
    rates: Seq<u32>,
    p: int,
    r: int,
    c: int,
)
    requires
        complete(data),
        module_of(data, rates).samples.len() <= u32::MAX,
        0 <= p < module_of(data, rates).patterns.len(),
        0 <= r < module_of(data, rates).patterns[p].len(),
        0 <= c < module_of(data, rates).patterns[p][r].len(),
    ensures
        ({
            let m = module_of(data, rates);
            let cell = m.patterns[p][r][c];
            let raw = parts_of(data)->0.patterns[p][r][c];
            let instruments = parts_of(data)->0.instruments;
            let i = effective(parts_of(data)->0.patterns, p, r, c);
            let inst = instruments[i->0 as int];
            let j = inst.keymap[raw.note - 1] as int;
            &&& cell.sample_index is Some <==> 1 <= raw.note <= 96 && i is Some && i->0
                < instruments.len() && j < inst.headers.len()
            &&& cell.sample_index matches Some(k) ==> {
                let s = m.samples[k - 1];
                &&& 1 <= k <= m.samples.len()
                &&& s.index == k
                &&& s.loop_start == sample_of(
                    data,
                    k,
                    (i->0, j as usize),
                    instruments,
                    rates,
                ).loop_start
                &&& s == sample_of(data, k, (i->0, j as usize), instruments, rates)
                &&& s.volume_envelope == inst.volume_envelope
                &&& s.panning_envelope == inst.panning_envelope
                &&& s.fadeout == inst.fadeout
            }
        }),
{
    let m = module_of(data, rates);
    let patterns = parts_of(data)->0.patterns;
    let slots = slots_of(patterns, parts_of(data)->0.instruments);
    let list = reachable(slots);
    law_reachable_samples(slots);
    match slots[p][r][c] {
        Some(x) => {
            assert(slots[p][r].contains(Some(x)));
            assert(plays_in(slots[p], x));
            assert(list.contains(x));
            lemma_number(list, x);
        },
        None => {},
    }
}

proof fn lemma_patterns_end(data: Seq<u8>, at: int, n: nat, channels: nat)
    requires
        0 <= at,
    ensures
        patterns_at(data, at, n, channels) matches Some((_, end)) ==> 0 <= end,
    decreases n,
{
    if n > 0 {
        lemma_patterns_end(data, at, (n - 1) as nat, channels);
    }
}

/// A sample is read from its header, and its frames are the sums of the differences that its
/// sound is written as.
pub proof fn law_samples_are_read(data: Seq<u8>, rates: Seq<u32>, index: u32, slot: Slot)
    requires
        complete(data),
        slot.0 < parts_of(data)->0.instruments.len(),
        slot.1 < parts_of(data)->0.instruments[slot.0 as int].headers.len(),
        data.len() <= usize::MAX,
    ensures
        ({
            let inst = parts_of(data)->0.instruments[slot.0 as int];
            read_from(
                data,
                rates,
                sample_of(data, index, slot, parts_of(data)->0.instruments, rates),
                inst.headers[slot.1 as int] as int,
                inst.sounds[slot.1 as int] as int,
            )
        }),
{
    let list = parts_of(data)->0.instruments;
    let start = 60 + long(data, 60);
    let (_, at) = patterns_at(data, start, word(data, 70) as nat, word(data, 68) as nat)->0;
    lemma_patterns_end(data, start, word(data, 70) as nat, word(data, 68) as nat);
    lemma_all_placed(data, at, word(data, 72) as nat);
    let inst = list[slot.0 as int];
    assert(placed(inst, data));
    let h = inst.headers[slot.1 as int] as int;
    let sound = inst.sounds[slot.1 as int] as int;
    let s = sample_of(data, index, slot, list, rates);
    let raw = data.subrange(sound, sound + long(data, h));
    let wide = data[h + 14] / 16 % 2 == 1;
    if wide {
        assert forall|i: int| 0 <= i < long(data, h) / 2 implies #[trigger] adds_word(
            s.pcm16,
            data,
            sound,
            i,
        ) by {
            lemma_wide(raw, i);
        }
    } else {
        assert forall|i: int| 0 <= i < long(data, h) implies #[trigger] adds_byte(
            s.pcm16,
            data,
            sound,
            i,
        ) by {
            lemma_narrow(raw, i);
        }
    }
}

/// What the file's header says of the song: the order of its patterns, where it starts over,
/// its speed and tempo, and how its pitches slide.
pub proof fn law_song_is_read(data: Seq<u8>, rates: Seq<u32>, i: int)
    requires
        complete(data),
    ensures
        ({
            let m = module_of(data, rates);
            &&& m.order.len() == if word(data, 64) <= 256 {
                word(data, 64)
            } else {
                256
            }
            &&& 0 <= i < m.order.len() ==> m.order[i] == data[80 + i]
            &&& m.restart_position == word(data, 66)
            &&& m.initial_speed_ticks == word(data, 76)
            &&& m.initial_tempo_bpm == word(data, 78)
            &&& m.linear_frequency_table <==> data[74] % 2 == 1
        }),
{
    assert((data[74] + 256 * data[75]) % 2 == data[74] % 2);
}

/// What an instrument's block says: the samples of its keys, where the headers of its samples
/// and their sounds stand, and how fast its notes fade.
pub proof fn law_instruments_are_read(data: Seq<u8>, at: int, key: int, j: int)
    requires
        0 <= at,
        at + 29 <= data.len(),
        instrument_at(data, at) is Some,
        0 <= key < 96,
        0 <= j < word(data, at + 27),
        data.len() <= usize::MAX,
        long(data, at) >= 241,
    ensures
        ({
            let (inst, end) = instrument_at(data, at)->0;
            let headers = at + long(data, at);
            let n = word(data, at + 27);
            &&& inst.headers.len() == n
            &&& inst.sounds.len() == n
            &&& inst.headers[j] == headers + 40 * j
            &&& inst.sounds[0] == headers + 40 * n
            &&& j + 1 < n ==> inst.sounds[j + 1] == inst.sounds[j] + long(data, headers + 40 * j)
            &&& end == inst.sounds[n - 1] + long(data, headers + 40 * (n - 1))
            &&& inst.keymap[key] == data[at + 33 + key]
            &&& inst.fadeout == word(data, at + 239)
            &&& inst.volume_envelope == envelope_of(
                data.subrange(at + 129, at + 177),
                data[at + 225],
                data[at + 227],
                data[at + 228],
                data[at + 229],
                data[at + 233],
            )
            &&& inst.panning_envelope == envelope_of(
                data.subrange(at + 177, at + 225),
                data[at + 226],
                data[at + 230],
                data[at + 231],
                data[at + 232],
                data[at + 234],
            )
        }),
{
    let headers = at + long(data, at);
    let n = word(data, at + 27);
    lemma_sounds(data, headers, n, j, n);
    lemma_sounds(data, headers, n, j + 1, n);
    lemma_sounds(data, headers, n, n - 1, n);
    lemma_sounds(data, headers, n, 0, n);
    let ext = extended_block(data, at, long(data, at));
    assert(ext.len() == long(data, at) - 29);
    assert(ext.subrange(100, 148) =~= data.subrange(at + 129, at + 177));
    assert(ext.subrange(148, 196) =~= data.subrange(at + 177, at + 225));
}

/// Where the block and the sounds of an instrument end.
pub open spec fn behind_instrument(data: Seq<u8>, at: int) -> int {
    match instrument_at(data, at) {
        Some((_, end)) => end,
        None => at,
    }
}

/// The blocks of a file's instruments stand behind its patterns, each behind the sounds of the
/// one before, and as many as the file counts.
pub proof fn law_instruments_follow_the_patterns(
    data: Seq<u8>,
    heads: Seq<int>,
    at: Seq<int>,
    i: int,
)
    requires
        complete(data),
        pattern_heads(data, heads),
        word(data, 70) > 0,
        at.len() == word(data, 72) + 1,
        at[0] == heads[word(data, 70)],
        forall|k: int, j: int|
            0 <= k && j == k + 1 && j < at.len() && instrument_at(data, at[k]) is Some
                ==> #[trigger] at[j] == behind_instrument(data, #[trigger] at[k]),
        0 <= i < word(data, 72),
    ensures
        parts_of(data)->0.instruments.len() == word(data, 72),
        instrument_at(data, at[i]) matches Some((inst, _)) && inst
            == parts_of(data)->0.instruments[i],
{
    let channels = word(data, 68) as nat;
    lemma_pattern(data, heads, word(data, 70) as nat, channels, 0);
    lemma_instrument(data, at, word(data, 72) as nat, i);
}

proof fn lemma_instrument(data: Seq<u8>, at: Seq<int>, n: nat, i: int)
    requires
        at.len() > n,
        forall|k: int, j: int|
            0 <= k && j == k + 1 && j < at.len() && instrument_at(data, at[k]) is Some
                ==> #[trigger] at[j] == behind_instrument(data, #[trigger] at[k]),
        instruments_at(data, at[0], n) is Some,
        0 <= i < n,
    ensures
        ({
            let (list, end) = instruments_at(data, at[0], n)->0;
            &&& end == at[n as int]
            &&& list.len() == n
            &&& instrument_at(data, at[i]) matches Some((inst, _)) && inst == list[i]
        }),
    decreases n,
{
    if i < n - 1 {
        lemma_instrument(data, at, (n - 1) as nat, i);
    } else if n > 1 {
        lemma_instrument(data, at, (n - 1) as nat, 0);
    } else {
        assert(instruments_at(data, at[0], 0) == Some((Seq::<InstrumentView>::empty(), at[0])));
    }
    assert(instrument_at(data, at[n - 1]) is Some ==> at[n as int] == behind_instrument(
        data,
        at[n - 1],
    ));
}

proof fn lemma_sounds(data: Seq<u8>, headers: int, n: int, i: int, j: int)
    requires
        0 <= headers,
        0 <= i <= j,
        0 <= n,
    ensures
        0 <= sound_at(data, headers, n, i) <= sound_at(data, headers, n, j),
    decreases j,
{
    if i < j {
        lemma_sounds(data, headers, n, i, j - 1);
    } else if j > 0 {
        lemma_sounds(data, headers, n, j - 1, j - 1);
    }
}

/// An envelope that is switched on has as many points as are counted, twelve at most, each with
/// its tick and its level, and it holds and loops at the points that its flags switch on.
pub proof fn law_envelopes_are_read(
    raw: Seq<u8>,
    num_points: u8,
    sustain: u8,
    loop_start: u8,
    loop_end: u8,
    flags: u8,
    i: int,
)
    requires
        raw.len() == 48,
    ensures
        ({
            let e = envelope_of(raw, num_points, sustain, loop_start, loop_end, flags);
            let n = if num_points < 12 {
                num_points as int
            } else {
                12
            };
            &&& e is Some <==> flags % 2 == 1 && num_points > 0
            &&& e matches Some(v) ==> {
                &&& v.points.len() == n
                &&& 0 <= i < n ==> v.points[i].tick == word(raw, 4 * i) && v.points[i].value
                    == word(raw, 4 * i + 2)
                &&& v.sustain_point == if flags / 2 % 2 == 1 && sustain < n {
                    Some(sustain as usize)
                } else {
                    None
                }
                &&& flags / 4 % 2 == 1 && loop_start < n && loop_end < n ==> v.loop_start_point
                    == Some(loop_start as usize) && v.loop_end_point == Some(loop_end as usize)
                &&& !(flags / 4 % 2 == 1 && loop_start < n && loop_end < n)
                    ==> v.loop_start_point is None && v.loop_end_point is None
            }
        }),
{
}

} // verus!
