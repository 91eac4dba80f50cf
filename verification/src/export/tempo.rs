//! Tempo and pattern plays of a song.
//!
//! Speed scales the tempo: a song whose Tempo is `tracker_bpm` runs at
//! `tracker_bpm * 6 / speed` beats per minute, 6 being the tracker default at which a row is
//! conventionally a 16th note.
use crate::formats::base::Cell;
use crate::formats::playback::{song_row_views, SongRow, SongRowView};
use vstd::prelude::*;

verus! {

pub const SPEED_TEMPO: u32 = 0xF;

/// Below this, the parameter of a Speed/Tempo effect sets the Speed; from it on, the Tempo.
pub const FIRST_TEMPO: u32 = 32;

/// A Tempo and a Speed: `tracker_bpm * 6 / speed` beats per minute.
#[derive(Debug, Clone, Copy, PartialEq, Eq, Structural)]
pub struct Tempo {
    pub tracker_bpm: u32,
    pub speed: u32,
}

impl Tempo {
    /// The two stand for the same number of beats per minute. A Speed of 0 makes it infinite,
    /// or no number at all where the Tempo is 0 too: then it is equal to nothing.
    pub open spec fn same(self, other: Tempo) -> bool {
        if self.speed == 0 || other.speed == 0 {
            self.speed == other.speed && self.tracker_bpm > 0 && other.tracker_bpm > 0
        } else {
            self.tracker_bpm * other.speed == other.tracker_bpm * self.speed
        }
    }

    fn is_same(&self, other: &Tempo) -> (r: bool)
        ensures
            r == self.same(*other),
    {
        if self.speed == 0 || other.speed == 0 {
            self.speed == other.speed && self.tracker_bpm > 0 && other.tracker_bpm > 0
        } else {
            proof {
                assert(self.tracker_bpm * other.speed <= 0xffff_ffff * 0xffff_ffff)
                    by (nonlinear_arith)
                    requires
                        self.tracker_bpm <= 0xffff_ffff,
                        other.speed <= 0xffff_ffff,
                ;
                assert(other.tracker_bpm * self.speed <= 0xffff_ffff * 0xffff_ffff)
                    by (nonlinear_arith)
                    requires
                        other.tracker_bpm <= 0xffff_ffff,
                        self.speed <= 0xffff_ffff,
                ;
            }
            self.tracker_bpm as u64 * other.speed as u64 == other.tracker_bpm as u64
                * self.speed as u64
        }
    }

    /// The tempo after one cell: a Speed/Tempo effect with a parameter other than 0 changes it.
    pub open spec fn after_cell(self, cell: Cell) -> Tempo {
        if cell.effect == Some(SPEED_TEMPO) && cell.effect_param is Some && cell.effect_param
            != Some(0u32) {
            let param = cell.effect_param->0;
            if param < FIRST_TEMPO {
                Tempo { speed: param, ..self }
            } else {
                Tempo { tracker_bpm: param, ..self }
            }
        } else {
            self
        }
    }

    fn next(&self, cell: &Cell) -> (r: Tempo)
        ensures
            r == self.after_cell(*cell),
    {
        if cell.effect == Some(SPEED_TEMPO) {
            match cell.effect_param {
                Some(param) => if param == 0 {
                    *self
                } else if param < FIRST_TEMPO {
                    Tempo { speed: param, tracker_bpm: self.tracker_bpm }
                } else {
                    Tempo { tracker_bpm: param, speed: self.speed }
                },
                None => *self,
            }
        } else {
            *self
        }
    }
}

/// From row `row` on, the song runs at `tempo`.
#[derive(Debug, Clone, Copy, PartialEq, Eq, Structural)]
pub struct TempoChange {
    pub row: usize,
    pub tempo: Tempo,
}

/// The tempo in effect and the changes that led to it.
pub struct TempoTrack {
    pub tempo: Tempo,
    pub changes: Seq<TempoChange>,
}

impl TempoTrack {
    /// After one cell of row `row`: a change of the beats per minute is noted, the last one
    /// of a row replacing the others.
    pub open spec fn after_cell(self, cell: Cell, row: usize) -> TempoTrack {
        let tempo = self.tempo.after_cell(cell);
        if tempo.same(self.tempo) || !self.tempo_effect(cell) {
            TempoTrack { tempo, ..self }
        } else {
            let change = TempoChange { row, tempo };
            TempoTrack {
                tempo,
                changes: if self.changes.last().row == row {
                    self.changes.drop_last().push(change)
                } else {
                    self.changes.push(change)
                },
            }
        }
    }

    /// Whether the cell sets the Speed or the Tempo.
    pub open spec fn tempo_effect(self, cell: Cell) -> bool {
        cell.effect == Some(SPEED_TEMPO) && cell.effect_param is Some && cell.effect_param != Some(
            0u32,
        )
    }

    /// After the cells of a row.
    pub open spec fn after_row(self, cells: Seq<Cell>, row: usize) -> TempoTrack
        decreases cells.len(),
    {
        if cells.len() == 0 {
            self
        } else {
            self.after_row(cells.drop_last(), row).after_cell(cells.last(), row)
        }
    }
}

/// The tempo track after the first rows of the song.
pub open spec fn tempo_track(initial: Tempo, rows: Seq<SongRowView>) -> TempoTrack
    decreases rows.len(),
{
    if rows.len() == 0 {
        TempoTrack { tempo: initial, changes: seq![TempoChange { row: 0, tempo: initial }] }
    } else {
        tempo_track(initial, rows.drop_last()).after_row(
            rows.last().row,
            (rows.len() - 1) as usize,
        )
    }
}

/// The tempo that row `k` of the song is played at.
pub open spec fn tempo_at(initial: Tempo, rows: Seq<SongRowView>, k: int) -> Tempo {
    tempo_track(initial, rows.take(k + 1)).tempo
}

proof fn lemma_changes_of_row(t: TempoTrack, cells: Seq<Cell>, row: usize)
    requires
        t.changes.len() > 0,
        t.changes.last().row <= row,
        forall|i: int, j: int|
            0 <= i < j < t.changes.len() ==> t.changes[i].row < t.changes[j].row,
    ensures
        ({
            let r = t.after_row(cells, row).changes;
            &&& r.len() > 0
            &&& r[0].row == t.changes[0].row
            &&& r.last().row <= row
            &&& forall|i: int, j: int| 0 <= i < j < r.len() ==> r[i].row < r[j].row
        }),
    decreases cells.len(),
{
    if cells.len() > 0 {
        lemma_changes_of_row(t, cells.drop_last(), row);
    }
}

/// The tempo changes of a song start with its first row and have ascending rows: at most one
/// for each.
pub proof fn law_tempo_changes_ascend(initial: Tempo, rows: Seq<SongRowView>)
    requires
        rows.len() <= usize::MAX,
    ensures
        ({
            let r = tempo_track(initial, rows).changes;
            &&& r.len() > 0
            &&& r[0].row == 0
            &&& r.last().row <= rows.len()
            &&& forall|i: int, j: int| 0 <= i < j < r.len() ==> r[i].row < r[j].row
        }),
    decreases rows.len(),
{
    if rows.len() > 0 {
        law_tempo_changes_ascend(initial, rows.drop_last());
        lemma_changes_of_row(
            tempo_track(initial, rows.drop_last()),
            rows.last().row,
            (rows.len() - 1) as usize,
        );
    }
}

/// The tempo of every row of the song, and the changes of it.
pub fn song_tempo(initial: Tempo, rows: &Vec<SongRow<'_>>) -> (r: (Vec<Tempo>, Vec<TempoChange>))
    ensures
        r.0@ == Seq::new(rows.len() as nat, |k: int| tempo_at(initial, song_row_views(rows@), k)),
        r.1@ == tempo_track(initial, song_row_views(rows@)).changes,
{
    let ghost views = song_row_views(rows@);
    let mut tempos: Vec<Tempo> = Vec::new();
    let mut changes: Vec<TempoChange> = Vec::new();
    changes.push(TempoChange { row: 0, tempo: initial });
    let mut tempo: Tempo = initial;
    let mut k: usize = 0;
    assert(changes@ =~= tempo_track(initial, views.take(0)).changes);
    while k < rows.len()
        invariant
            views == song_row_views(rows@),
            k <= rows.len(),
            tempos@ == Seq::new(k as nat, |i: int| tempo_at(initial, views, i)),
            tempo == tempo_track(initial, views.take(k as int)).tempo,
            changes@ == tempo_track(initial, views.take(k as int)).changes,
            changes.len() > 0,
        decreases rows.len() - k,
    {
        let cells: &[Cell] = rows[k].row;
        let ghost before = tempo_track(initial, views.take(k as int));
        let mut c: usize = 0;
        assert(cells@.take(0) =~= Seq::<Cell>::empty());
        while c < cells.len()
            invariant
                c <= cells.len(),
                tempo == before.after_row(cells@.take(c as int), k).tempo,
                changes@ == before.after_row(cells@.take(c as int), k).changes,
                changes.len() > 0,
            decreases cells.len() - c,
        {
            let cell: Cell = cells[c];
            proof {
                assert(cells@.take(c + 1).drop_last() =~= cells@.take(c as int));
                assert(cells@.take(c + 1).last() == cell);
            }
            let next: Tempo = tempo.next(&cell);
            let sets: bool = cell.effect == Some(SPEED_TEMPO) && cell.effect_param.is_some()
                && cell.effect_param != Some(0u32);
            if sets && !next.is_same(&tempo) {
                let last: usize = changes.len() - 1;
                if changes[last].row == k {
                    changes.pop();
                }
                changes.push(TempoChange { row: k, tempo: next });
            }
            tempo = next;
            c += 1;
        }
        proof {
            assert(cells@.take(c as int) =~= cells@);
            assert(views.take(k + 1).drop_last() =~= views.take(k as int));
            assert(views.take(k + 1).last().row == cells@);
        }
        tempos.push(tempo);
        k += 1;
        assert(tempos@ =~= Seq::new(k as nat, |i: int| tempo_at(initial, views, i)));
    }
    assert(views.take(k as int) =~= views);
    (tempos, changes)
}

/// One pattern play: the rows `start_row..end_row` of the song, all at one position.
///
/// A Position Jump or a Pattern Break ends a segment early; coming back to the same pattern
/// later makes another one.
#[derive(Debug, Clone, Copy, PartialEq, Eq, Structural)]
pub struct Segment {
    pub start_row: usize,
    pub end_row: usize,
    pub order_pos: usize,
    pub pattern_index: usize,
}

/// The runs of rows at one song position.
pub open spec fn segments_of(rows: Seq<SongRowView>) -> Seq<Segment>
    decreases rows.len(),
{
    if rows.len() == 0 {
        Seq::empty()
    } else {
        let before = segments_of(rows.drop_last());
        let row = rows.last();
        if before.len() > 0 && before.last().order_pos == row.order_pos {
            before.drop_last().push(
                Segment { end_row: rows.len() as usize, ..before.last() },
            )
        } else {
            before.push(
                Segment {
                    start_row: (rows.len() - 1) as usize,
                    end_row: rows.len() as usize,
                    order_pos: row.order_pos as usize,
                    pattern_index: row.pattern_index as usize,
                },
            )
        }
    }
}

/// Consecutive segments are contiguous, none is empty, and together they cover the song.
pub proof fn law_segments_cover(rows: Seq<SongRowView>)
    requires
        rows.len() <= usize::MAX,
    ensures
        ({
            let s = segments_of(rows);
            &&& rows.len() > 0 <==> s.len() > 0
            &&& s.len() > 0 ==> s[0].start_row == 0 && s.last().end_row == rows.len()
            &&& forall|i: int| 0 <= i < s.len() ==> (#[trigger] s[i]).start_row < s[i].end_row
            &&& forall|i: int, j: int|
                0 <= i < s.len() && j == i + 1 && j < s.len() ==> (#[trigger] s[i]).end_row == (
                #[trigger] s[j]).start_row
        }),
    decreases rows.len(),
{
    if rows.len() > 0 {
        law_segments_cover(rows.drop_last());
    }
}

/// The segments of the song.
pub fn song_segments(rows: &Vec<SongRow<'_>>) -> (r: Vec<Segment>)
    ensures
        r@ == segments_of(song_row_views(rows@)),
{
    let ghost views = song_row_views(rows@);
    let mut out: Vec<Segment> = Vec::new();
    let mut k: usize = 0;
    assert(views.take(0) =~= Seq::<SongRowView>::empty());
    while k < rows.len()
        invariant
            views == song_row_views(rows@),
            k <= rows.len(),
            out@ == segments_of(views.take(k as int)),
        decreases rows.len() - k,
    {
        proof {
            assert(views.take(k + 1).drop_last() =~= views.take(k as int));
            assert(views.take(k + 1).last() == rows[k as int]@);
        }
        let order_pos: usize = rows[k].order_pos;
        let n: usize = out.len();
        if n > 0 && out[n - 1].order_pos == order_pos {
            let last: Segment = out[n - 1];
            out.pop();
            out.push(Segment { end_row: k + 1, ..last });
        } else {
            out.push(
                Segment {
                    start_row: k,
                    end_row: k + 1,
                    order_pos,
                    pattern_index: rows[k].pattern_index,
                },
            );
        }
        k += 1;
    }
    assert(views.take(k as int) =~= views);
    out
}

} // verus!
