//! Format-independent intermediate representation (IR) for tracker modules.
//!
//! Every format parser produces a `Module`. Everything downstream (listing, WAV/MIDI/.als
//! export) only ever looks at this IR, never at format-specific structures.
use std::collections::BTreeMap;
use crate::formats::counts::{bump, sorted_keys};
use vstd::prelude::*;

verus! {

/// One (tick, value) breakpoint of an instrument envelope. `tick` is counted from the note's
/// trigger, `value` is 0-64 for both volume and panning envelopes (32 is the center for
/// panning).
#[derive(Debug, Clone, Copy, PartialEq, Eq, Structural)]
pub struct EnvelopePoint {
    pub tick: u32,
    pub value: u32,
}

/// A volume or panning envelope, as authored on a tracker instrument.
#[derive(Debug)]
pub struct Envelope {
    /// Tick-ordered; the first point's tick is 0.
    pub points: Vec<EnvelopePoint>,
    /// Index into `points`: the value freezes here while a note is held.
    pub sustain_point: Option<usize>,
    pub loop_start_point: Option<usize>,
    pub loop_end_point: Option<usize>,
}

/// What an `Envelope` holds.
pub struct EnvelopeView {
    pub points: Seq<EnvelopePoint>,
    pub sustain_point: Option<usize>,
    pub loop_start_point: Option<usize>,
    pub loop_end_point: Option<usize>,
}

impl View for Envelope {
    type V = EnvelopeView;

    open spec fn view(&self) -> EnvelopeView {
        EnvelopeView {
            points: self.points@,
            sustain_point: self.sustain_point,
            loop_start_point: self.loop_start_point,
            loop_end_point: self.loop_end_point,
        }
    }
}

impl EnvelopeView {
    /// A sustain point is one of the points.
    pub open spec fn wf(self) -> bool {
        self.sustain_point matches Some(s) ==> s < self.points.len()
    }
}

impl Clone for Envelope {
    fn clone(&self) -> (r: Self)
        ensures
            r@ == self@,
    {
        Envelope {
            points: clone_points(&self.points),
            sustain_point: self.sustain_point,
            loop_start_point: self.loop_start_point,
            loop_end_point: self.loop_end_point,
        }
    }
}

fn clone_points(points: &Vec<EnvelopePoint>) -> (r: Vec<EnvelopePoint>)
    ensures
        r@ == points@,
{
    let mut out: Vec<EnvelopePoint> = Vec::new();
    let mut i: usize = 0;
    while i < points.len()
        invariant
            i <= points.len(),
            out@ == points@.take(i as int),
        decreases points.len() - i,
    {
        out.push(points[i]);
        i += 1;
        assert(points@.take(i as int) =~= points@.take(i - 1).push(points@[i - 1]));
    }
    assert(points@.take(i as int) =~= points@);
    out
}

/// One sample of a module.
#[derive(Debug)]
pub struct Sample {
    /// 1-based, matches tracker sample numbering.
    pub index: u32,
    pub name: String,
    /// Mono, 16-bit signed little-endian PCM.
    pub pcm16: Vec<u8>,
    pub sample_rate_hz: u32,
    /// In frames.
    pub loop_start: u32,
    /// In frames, 0 for no loop.
    pub loop_length: u32,
    /// 0-64.
    pub volume: u32,
    /// -8..=7.
    pub finetune: i32,
    /// MIDI note number this sample is pitched to play at unmodified.
    pub base_note: i32,
    /// Panning in 127ths of full scale: -127..=127, 0 is the center.
    pub pan: i32,
    pub volume_envelope: Option<Envelope>,
    pub panning_envelope: Option<Envelope>,
    /// Volume fadeout rate of the instrument, 0 for none.
    pub fadeout: u32,
}

/// What an optional envelope holds.
pub open spec fn envelope_view(e: Option<Envelope>) -> Option<EnvelopeView> {
    match e {
        Some(env) => Some(env@),
        None => None,
    }
}

/// What a `Sample` holds.
pub struct SampleView {
    pub index: u32,
    pub name: Seq<char>,
    pub pcm16: Seq<u8>,
    pub sample_rate_hz: u32,
    pub loop_start: u32,
    pub loop_length: u32,
    pub volume: u32,
    pub finetune: i32,
    pub base_note: i32,
    pub pan: i32,
    pub volume_envelope: Option<EnvelopeView>,
    pub panning_envelope: Option<EnvelopeView>,
    pub fadeout: u32,
}

impl View for Sample {
    type V = SampleView;

    open spec fn view(&self) -> SampleView {
        SampleView {
            index: self.index,
            name: self.name@,
            pcm16: self.pcm16@,
            sample_rate_hz: self.sample_rate_hz,
            loop_start: self.loop_start,
            loop_length: self.loop_length,
            volume: self.volume,
            finetune: self.finetune,
            base_note: self.base_note,
            pan: self.pan,
            volume_envelope: envelope_view(self.volume_envelope),
            panning_envelope: envelope_view(self.panning_envelope),
            fadeout: self.fadeout,
        }
    }
}

impl SampleView {
    pub open spec fn has_loop(self) -> bool {
        self.loop_length > 0
    }

    pub open spec fn is_empty(self) -> bool {
        self.pcm16.len() == 0
    }

    /// The frames of the sample: two bytes each.
    pub open spec fn frames(self) -> nat {
        self.pcm16.len() / 2
    }

    /// The sustain points of its envelopes exist.
    pub open spec fn wf(self) -> bool {
        &&& self.volume_envelope matches Some(e) ==> e.wf()
        &&& self.panning_envelope matches Some(e) ==> e.wf()
    }
}

impl Sample {
    pub fn has_loop(&self) -> (r: bool)
        ensures
            r == self@.has_loop(),
    {
        self.loop_length > 0
    }

    pub fn is_empty(&self) -> (r: bool)
        ensures
            r == self@.is_empty(),
    {
        self.pcm16.len() == 0
    }
}

/// The views of a list of samples.
pub open spec fn sample_views(samples: Seq<Sample>) -> Seq<SampleView> {
    samples.map_values(|s: Sample| s@)
}

/// One channel's entry on one pattern row.
#[derive(Debug, Clone, Copy, PartialEq, Eq, Structural)]
pub struct Cell {
    /// `None`: no sample triggered on this row.
    pub sample_index: Option<u32>,
    /// `None`: no new note on this row.
    pub midi_note: Option<i32>,
    /// 0-64; `None`: the sample's default.
    pub volume: Option<u32>,
    pub effect: Option<u32>,
    pub effect_param: Option<u32>,
    /// Explicit note release (XM Key Off).
    pub note_off: bool,
}

impl Default for Cell {
    fn default() -> (r: Cell)
        ensures
            r == (Cell {
                sample_index: None,
                midi_note: None,
                volume: None,
                effect: None,
                effect_param: None,
                note_off: false,
            }),
    {
        Cell {
            sample_index: None,
            midi_note: None,
            volume: None,
            effect: None,
            effect_param: None,
            note_off: false,
        }
    }
}

/// The rows of one pattern: `rows[row_index][channel]`.
#[derive(Debug)]
pub struct Pattern {
    pub rows: Vec<Vec<Cell>>,
}

/// The cells of the given rows.
pub open spec fn rows_view(rows: Seq<Vec<Cell>>) -> Seq<Seq<Cell>> {
    rows.map_values(|r: Vec<Cell>| r@)
}

impl View for Pattern {
    type V = Seq<Seq<Cell>>;

    open spec fn view(&self) -> Seq<Seq<Cell>> {
        rows_view(self.rows@)
    }
}

/// The cells of the given patterns.
pub open spec fn patterns_view(patterns: Seq<Pattern>) -> Seq<Seq<Seq<Cell>>> {
    patterns.map_values(|p: Pattern| p@)
}

impl Pattern {
    pub fn num_rows(&self) -> (r: usize)
        ensures
            r == self@.len(),
    {
        self.rows.len()
    }
}

/// A tracker module.
#[derive(Debug)]
pub struct Module {
    pub title: String,
    pub source_format: String,
    pub num_channels: usize,
    pub samples: Vec<Sample>,
    pub patterns: Vec<Pattern>,
    /// Sequence of pattern indices, i.e. the "song".
    pub order: Vec<u32>,
    pub restart_position: u32,
    pub initial_tempo_bpm: u32,
    pub initial_speed_ticks: u32,
    /// Whether the file declares the linear (rather than the Amiga) frequency table.
    pub linear_frequency_table: bool,
}

/// What a `Module` holds.
pub struct ModuleView {
    pub title: Seq<char>,
    pub source_format: Seq<char>,
    pub num_channels: usize,
    pub samples: Seq<SampleView>,
    pub patterns: Seq<Seq<Seq<Cell>>>,
    pub order: Seq<u32>,
    pub restart_position: u32,
    pub initial_tempo_bpm: u32,
    pub initial_speed_ticks: u32,
    pub linear_frequency_table: bool,
}

impl View for Module {
    type V = ModuleView;

    open spec fn view(&self) -> ModuleView {
        ModuleView {
            title: self.title@,
            source_format: self.source_format@,
            num_channels: self.num_channels,
            samples: sample_views(self.samples@),
            patterns: patterns_view(self.patterns@),
            order: self.order@,
            restart_position: self.restart_position,
            initial_tempo_bpm: self.initial_tempo_bpm,
            initial_speed_ticks: self.initial_speed_ticks,
            linear_frequency_table: self.linear_frequency_table,
        }
    }
}

/// What a tally of cells counts.
#[derive(Debug, Clone, Copy, PartialEq, Eq, Structural)]
pub enum Tally {
    /// Every effect, by its code; an arpeggio without a parameter is no effect.
    Effects,
    /// Every Exx effect, by `0xE0` and its sub-command.
    ExtendedSubcommands,
}

/// An effect's parameter, 0 where the cell has none.
pub open spec fn param_of(cell: Cell) -> u32 {
    match cell.effect_param {
        Some(p) => p,
        None => 0,
    }
}

impl Tally {
    /// Under which code a cell is counted, if it is.
    pub open spec fn key(self, cell: Cell) -> Option<u32> {
        match self {
            Tally::Effects => match cell.effect {
                Some(e) if e != 0 || param_of(cell) != 0 => Some(e),
                _ => None,
            },
            Tally::ExtendedSubcommands => if cell.effect == Some(0xEu32) {
                Some((0xE0 + param_of(cell) / 16 % 16) as u32)
            } else {
                None
            },
        }
    }

    fn key_of(self, cell: &Cell) -> (r: Option<u32>)
        ensures
            r == self.key(*cell),
    {
        let param: u32 = match cell.effect_param {
            Some(p) => p,
            None => 0,
        };
        match self {
            Tally::Effects => match cell.effect {
                Some(e) => if e != 0 || param != 0 {
                    Some(e)
                } else {
                    None
                },
                None => None,
            },
            Tally::ExtendedSubcommands => if cell.effect == Some(0xEu32) {
                Some(0xE0 + param / 16 % 16)
            } else {
                None
            },
        }
    }
}

/// The cells of the given rows, one after another.
pub open spec fn row_cells(rows: Seq<Seq<Cell>>) -> Seq<Cell>
    decreases rows.len(),
{
    if rows.len() == 0 {
        Seq::empty()
    } else {
        row_cells(rows.drop_last()) + rows.last()
    }
}

/// The cells of the given patterns, one after another.
pub open spec fn all_cells(patterns: Seq<Seq<Seq<Cell>>>) -> Seq<Cell>
    decreases patterns.len(),
{
    if patterns.len() == 0 {
        Seq::empty()
    } else {
        all_cells(patterns.drop_last()) + row_cells(patterns.last())
    }
}

/// How many of the cells are counted under `code`.
pub open spec fn occurrences(cells: Seq<Cell>, tally: Tally, code: u32) -> nat
    decreases cells.len(),
{
    if cells.len() == 0 {
        0
    } else {
        occurrences(cells.drop_last(), tally, code) + (if tally.key(cells.last()) == Some(code) {
            1nat
        } else {
            0nat
        })
    }
}

/// The map holds the codes that occur, each with its number of occurrences.
pub open spec fn is_tally(m: Map<u32, u32>, cells: Seq<Cell>, tally: Tally) -> bool {
    &&& forall|code: u32| #[trigger] m.contains_key(code) <==> occurrences(cells, tally, code) > 0
    &&& forall|code: u32| #[trigger]
        m.contains_key(code) ==> m[code] == occurrences(cells, tally, code)
}

proof fn lemma_occurrences_bound(cells: Seq<Cell>, tally: Tally, code: u32)
    ensures
        occurrences(cells, tally, code) <= cells.len(),
    decreases cells.len(),
{
    if cells.len() > 0 {
        lemma_occurrences_bound(cells.drop_last(), tally, code);
    }
}

proof fn lemma_row_cells_take(rows: Seq<Seq<Cell>>, n: int)
    requires
        0 <= n <= rows.len(),
    ensures
        row_cells(rows.take(n)).len() <= row_cells(rows).len(),
    decreases rows.len(),
{
    if n < rows.len() {
        lemma_row_cells_take(rows.drop_last(), n);
        assert(rows.drop_last().take(n) =~= rows.take(n));
    } else {
        assert(rows.take(n) =~= rows);
    }
}

proof fn lemma_all_cells_take(patterns: Seq<Seq<Seq<Cell>>>, n: int)
    requires
        0 <= n <= patterns.len(),
    ensures
        all_cells(patterns.take(n)).len() <= all_cells(patterns).len(),
    decreases patterns.len(),
{
    if n < patterns.len() {
        lemma_all_cells_take(patterns.drop_last(), n);
        assert(patterns.drop_last().take(n) =~= patterns.take(n));
    } else {
        assert(patterns.take(n) =~= patterns);
    }
}

impl ModuleView {
    /// No sample and no cell has a volume beyond 64, and no cell both starts a note and releases
    /// one.
    pub open spec fn cells_and_samples_fit(self) -> bool {
        &&& forall|i: int| 0 <= i < self.samples.len() ==> (#[trigger] self.samples[i]).volume <= 64
        &&& forall|p: int, r: int, c: int|
            #![trigger self.patterns[p][r][c]]
            0 <= p < self.patterns.len() && 0 <= r < self.patterns[p].len() && 0 <= c
                < self.patterns[p][r].len() ==> {
                &&& self.patterns[p][r][c].volume matches Some(v) ==> v <= 64
                &&& !(self.patterns[p][r][c].note_off && self.patterns[p][r][c].midi_note is Some)
            }
    }

    /// The cells of all patterns.
    pub open spec fn cells(self) -> Seq<Cell> {
        all_cells(self.patterns)
    }
}

impl Module {
    /// Whether the module has few enough cells for a `u32` to count them.
    pub fn counts_fit(&self) -> (r: bool)
        ensures
            r == (self@.cells().len() <= u32::MAX),
    {
        let mut total: u64 = 0;
        let mut p: usize = 0;
        while p < self.patterns.len()
            invariant
                p <= self.patterns.len(),
                total <= u32::MAX,
                total == all_cells(self@.patterns.take(p as int)).len(),
            decreases self.patterns.len() - p,
        {
            let rows: &Vec<Vec<Cell>> = &self.patterns[p].rows;
            let ghost before = total;
            let mut r: usize = 0;
            proof {
                assert(self@.patterns.take(p + 1).drop_last() =~= self@.patterns.take(p as int));
                lemma_all_cells_take(self@.patterns, p + 1);
            }
            while r < rows.len()
                invariant
                    r <= rows.len(),
                    p < self.patterns.len(),
                    rows == self.patterns[p as int].rows,
                    total <= u32::MAX,
                    before == all_cells(self@.patterns.take(p as int)).len(),
                    total == before + row_cells(self@.patterns[p as int].take(r as int)).len(),
                    all_cells(self@.patterns.take(p + 1)).len() == before + row_cells(
                        self@.patterns[p as int],
                    ).len(),
                    all_cells(self@.patterns.take(p + 1)).len() <= self@.cells().len(),
                decreases rows.len() - r,
            {
                proof {
                    let pat = self@.patterns[p as int];
                    assert(pat.take(r + 1).drop_last() =~= pat.take(r as int));
                    lemma_row_cells_take(pat, r + 1);
                }
                let n: usize = rows[r].len();
                if n > u32::MAX as usize || total + n as u64 > u32::MAX as u64 {
                    return false;
                }
                total += n as u64;
                r += 1;
            }
            assert(self@.patterns[p as int].take(r as int) =~= self@.patterns[p as int]);
            p += 1;
        }
        assert(self@.patterns.take(p as int) =~= self@.patterns);
        true
    }

    /// Counts the module's cells by the codes that `tally` gives them.
    pub fn tally_cells(&self, tally: Tally) -> (m: BTreeMap<u32, u32>)
        requires
            self@.cells().len() <= u32::MAX,
        ensures
            is_tally(m@, self@.cells(), tally),
    {
        let mut counts: BTreeMap<u32, u32> = BTreeMap::new();
        let ghost mut done: Seq<Cell> = Seq::empty();
        let mut p: usize = 0;
        while p < self.patterns.len()
            invariant
                p <= self.patterns.len(),
                self@.cells().len() <= u32::MAX,
                done == all_cells(self@.patterns.take(p as int)),
                is_tally(counts@, done, tally),
            decreases self.patterns.len() - p,
        {
            let rows: &Vec<Vec<Cell>> = &self.patterns[p].rows;
            let ghost before = done;
            let mut r: usize = 0;
            proof {
                assert(self@.patterns.take(p + 1).drop_last() =~= self@.patterns.take(p as int));
                lemma_all_cells_take(self@.patterns, p + 1);
                assert(before + row_cells(self@.patterns[p as int].take(0)) =~= before);
            }
            while r < rows.len()
                invariant
                    r <= rows.len(),
                    p < self.patterns.len(),
                    rows == self.patterns[p as int].rows,
                    self@.cells().len() <= u32::MAX,
                    before.len() + row_cells(self@.patterns[p as int]).len() <= self@.cells().len(),
                    done == before + row_cells(self@.patterns[p as int].take(r as int)),
                    is_tally(counts@, done, tally),
                decreases rows.len() - r,
            {
                let ghost row_before = done;
                let row: &Vec<Cell> = &rows[r];
                proof {
                    let pat = self@.patterns[p as int];
                    assert(pat.take(r + 1).drop_last() =~= pat.take(r as int));
                    lemma_row_cells_take(pat, r + 1);
                    assert(pat[r as int] == row@);
                    assert(row_before + row@.take(0) =~= row_before);
                }
                let mut c: usize = 0;
                while c < row.len()
                    invariant
                        c <= row.len(),
                        row_before.len() + row@.len() <= u32::MAX,
                        done == row_before + row@.take(c as int),
                        is_tally(counts@, done, tally),
                    decreases row.len() - c,
                {
                    let cell: Cell = row[c];
                    let ghost next = done.push(cell);
                    proof {
                        assert(row_before + row@.take(c + 1) =~= next);
                        assert(next.drop_last() =~= done);
                        assert forall|code: u32|
                            #[trigger] occurrences(next, tally, code) <= u32::MAX by {
                            lemma_occurrences_bound(next, tally, code);
                        }
                    }
                    match tally.key_of(&cell) {
                        Some(code) => {
                            assert(crate::formats::counts::count_of(counts@, code) == occurrences(
                                done,
                                tally,
                                code,
                            ));
                            assert(occurrences(next, tally, code) == occurrences(done, tally, code)
                                + 1);
                            bump(&mut counts, code);
                        },
                        None => {},
                    }
                    proof {
                        done = next;
                    }
                    c += 1;
                }
                proof {
                    assert(row@.take(c as int) =~= row@);
                    let pat = self@.patterns[p as int];
                    assert(before + row_cells(pat.take(r + 1)) =~= row_before + row@);
                }
                r += 1;
            }
            proof {
                assert(self@.patterns[p as int].take(r as int) =~= self@.patterns[p as int]);
            }
            p += 1;
        }
        assert(self@.patterns.take(p as int) =~= self@.patterns);
        counts
    }

    /// How often each effect occurs in the patterns.
    pub fn effect_counts(&self) -> (m: BTreeMap<u32, u32>)
        requires
            self@.cells().len() <= u32::MAX,
        ensures
            is_tally(m@, self@.cells(), Tally::Effects),
    {
        self.tally_cells(Tally::Effects)
    }

    /// The codes of the effects that occur, in ascending order.
    pub fn effects_used(&self) -> (r: Vec<u32>)
        requires
            self@.cells().len() <= u32::MAX,
        ensures
            forall|i: int, j: int| 0 <= i < j < r.len() ==> r[i] < r[j],
            forall|code: u32|
                r@.contains(code) <==> occurrences(self@.cells(), Tally::Effects, code) > 0,
    {
        let counts = self.effect_counts();
        sorted_keys(&counts)
    }
}

} // verus!
