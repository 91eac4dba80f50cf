//! Simulates song playback order, honoring effects that alter control flow.
//!
//! Playing each pattern of the order table from start to finish is wrong: the `Bxx`
//! (Position Jump) and `Dxx` (Pattern Break) effects end a pattern early and jump to another
//! song position, possibly to a given row of it. Code that walks the song for timing goes
//! through `iter_song_rows`, so that rows that never play are never seen.
use crate::formats::base::{Cell, Module, ModuleView};
use std::collections::HashSet;
use vstd::prelude::*;

verus! {

pub const POSITION_JUMP: u32 = 0xB;

pub const PATTERN_BREAK: u32 = 0xD;

/// Rows that a Pattern Break can start at.
pub const BREAK_ROWS: usize = 64;

/// The row that a packed BCD parameter names (0x23 is row 23); 0 where it is 64 or more.
pub open spec fn bcd_row_spec(param: u32) -> int {
    let row = param / 16 * 10 + param % 16;
    if row < BREAK_ROWS {
        row
    } else {
        0
    }
}

fn bcd_row(param: u32) -> (r: usize)
    ensures
        r == bcd_row_spec(param),
        r < BREAK_ROWS,
{
    let row: u32 = param / 16 * 10 + param % 16;
    if row < 64 {
        row as usize
    } else {
        0
    }
}

/// One row of the song, as played.
pub struct SongRow<'a> {
    pub order_pos: usize,
    pub pattern_index: usize,
    pub row_index: usize,
    pub row: &'a [Cell],
}

/// What a `SongRow` holds.
pub struct SongRowView {
    pub order_pos: int,
    pub pattern_index: int,
    pub row_index: int,
    pub row: Seq<Cell>,
}

impl<'a> View for SongRow<'a> {
    type V = SongRowView;

    open spec fn view(&self) -> SongRowView {
        SongRowView {
            order_pos: self.order_pos as int,
            pattern_index: self.pattern_index as int,
            row_index: self.row_index as int,
            row: self.row@,
        }
    }
}

/// The views of a list of song rows.
pub open spec fn song_row_views<'a>(rows: Seq<SongRow<'a>>) -> Seq<SongRowView> {
    rows.map_values(|r: SongRow<'a>| r@)
}

/// The patterns of the song in order: the order table, or all patterns where it is empty.
pub open spec fn song_order(m: ModuleView) -> Seq<int> {
    if m.order.len() > 0 {
        m.order.map_values(|p: u32| p as int)
    } else {
        Seq::new(m.patterns.len(), |i: int| i)
    }
}

/// The song position that a row jumps to: the parameter of its last Position Jump.
pub open spec fn jump_of(row: Seq<Cell>) -> Option<int>
    decreases row.len(),
{
    if row.len() == 0 {
        None
    } else if row.last().effect == Some(POSITION_JUMP) && row.last().effect_param is Some {
        Some(row.last().effect_param->0 as int)
    } else {
        jump_of(row.drop_last())
    }
}

/// The row that a row's last Pattern Break names.
pub open spec fn break_of(row: Seq<Cell>) -> Option<int>
    decreases row.len(),
{
    if row.len() == 0 {
        None
    } else if row.last().effect == Some(PATTERN_BREAK) && row.last().effect_param is Some {
        Some(bcd_row_spec(row.last().effect_param->0))
    } else {
        break_of(row.drop_last())
    }
}

/// Whether the play of a pattern ends with this row.
pub open spec fn ends_play(row: Seq<Cell>) -> bool {
    jump_of(row) is Some || break_of(row) is Some
}

/// How many rows of a pattern play, from row `start` on.
pub open spec fn played_rows(rows: Seq<Seq<Cell>>, start: int) -> nat
    decreases rows.len() - start,
{
    if start >= rows.len() {
        0
    } else if ends_play(rows[start]) {
        1
    } else {
        1 + played_rows(rows, start + 1)
    }
}

/// Where the song goes on after a pattern was played from row `start` at position `pos`:
/// the position and the row.
pub open spec fn next_start(rows: Seq<Seq<Cell>>, start: int, pos: int) -> (int, int) {
    let last = start + played_rows(rows, start) - 1;
    if start <= last && ends_play(rows[last]) {
        (
            match jump_of(rows[last]) {
                Some(p) => p,
                None => pos + 1,
            },
            match break_of(rows[last]) {
                Some(r) => r,
                None => 0,
            },
        )
    } else {
        (pos + 1, 0)
    }
}

/// The rows of one pattern play.
pub open spec fn play(m: ModuleView, pos: int, start: int) -> Seq<SongRowView> {
    let p = song_order(m)[pos];
    Seq::new(
        played_rows(m.patterns[p], start),
        |i: int|
            SongRowView {
                order_pos: pos,
                pattern_index: p,
                row_index: start + i,
                row: m.patterns[p][start + i],
            },
    )
}

/// One number for each starting point of a pattern play.
pub open spec fn start_code(pos: int, row: int) -> int {
    pos * BREAK_ROWS + row
}

/// The starting points not yet played.
pub open spec fn fresh_starts(m: ModuleView, visited: Set<int>) -> Set<int> {
    vstd::set_lib::set_int_range(0, song_order(m).len() * BREAK_ROWS).difference(visited)
}

pub proof fn lemma_fresh_shrinks(m: ModuleView, visited: Set<int>, code: int)
    requires
        0 <= code < song_order(m).len() * BREAK_ROWS,
        !visited.contains(code),
    ensures
        fresh_starts(m, visited.insert(code)).len() < fresh_starts(m, visited).len(),
{
    vstd::set_lib::lemma_int_range(0, song_order(m).len() * BREAK_ROWS);
    let all = vstd::set_lib::set_int_range(0, song_order(m).len() * BREAK_ROWS);
    let before = fresh_starts(m, visited);
    vstd::set_lib::lemma_len_subset(before, all);
    assert(before.contains(code));
    assert(fresh_starts(m, visited.insert(code)) =~= before.remove(code));
}

pub proof fn lemma_start_code(m: ModuleView, pos: int, row: int)
    requires
        0 <= pos < song_order(m).len(),
        0 <= row < BREAK_ROWS,
    ensures
        0 <= start_code(pos, row) < song_order(m).len() * BREAK_ROWS,
{
}

/// The song from row `row` of position `pos` on, where the starting points `visited` have
/// been played: it stops at the end of the order table, or where a starting point comes
/// round again.
pub open spec fn walk(m: ModuleView, pos: int, row: int, visited: Set<int>) -> Seq<SongRowView>
    decreases fresh_starts(m, visited).len(),
{
    if 0 <= pos < song_order(m).len() && 0 <= row < BREAK_ROWS && !visited.contains(
        start_code(pos, row),
    ) {
        proof {
            lemma_start_code(m, pos, row);
            lemma_fresh_shrinks(m, visited, start_code(pos, row));
        }
        let seen = visited.insert(start_code(pos, row));
        let p = song_order(m)[pos];
        if p >= m.patterns.len() {
            walk(m, pos + 1, 0, seen)
        } else {
            let next = next_start(m.patterns[p], row, pos);
            play(m, pos, row) + walk(m, next.0, next.1, seen)
        }
    } else {
        Seq::empty()
    }
}

/// The rows of the song in playback order.
pub open spec fn song_rows(m: ModuleView) -> Seq<SongRowView> {
    walk(m, 0, 0, Set::empty())
}

/// The starting points (position, row) of the pattern plays that `walk` goes through.
pub open spec fn starts(m: ModuleView, pos: int, row: int, visited: Set<int>) -> Seq<(int, int)>
    decreases fresh_starts(m, visited).len(),
{
    if 0 <= pos < song_order(m).len() && 0 <= row < BREAK_ROWS && !visited.contains(
        start_code(pos, row),
    ) {
        proof {
            lemma_start_code(m, pos, row);
            lemma_fresh_shrinks(m, visited, start_code(pos, row));
        }
        let seen = visited.insert(start_code(pos, row));
        let p = song_order(m)[pos];
        if p >= m.patterns.len() {
            starts(m, pos + 1, 0, seen)
        } else {
            let next = next_start(m.patterns[p], row, pos);
            seq![(pos, row)] + starts(m, next.0, next.1, seen)
        }
    } else {
        Seq::empty()
    }
}

/// The plays from the given starting points, one after another.
pub open spec fn plays(m: ModuleView, from: Seq<(int, int)>) -> Seq<SongRowView>
    decreases from.len(),
{
    if from.len() == 0 {
        Seq::empty()
    } else {
        play(m, from[0].0, from[0].1) + plays(m, from.drop_first())
    }
}

proof fn lemma_starts(m: ModuleView, pos: int, row: int, visited: Set<int>)
    ensures
        walk(m, pos, row, visited) == plays(m, starts(m, pos, row, visited)),
        starts(m, pos, row, visited).no_duplicates(),
        forall|i: int|
            0 <= i < starts(m, pos, row, visited).len() ==> {
                let s = #[trigger] starts(m, pos, row, visited)[i];
                &&& 0 <= s.1 < BREAK_ROWS
                &&& !visited.contains(start_code(s.0, s.1))
            },
    decreases fresh_starts(m, visited).len(),
{
    if 0 <= pos < song_order(m).len() && 0 <= row < BREAK_ROWS && !visited.contains(
        start_code(pos, row),
    ) {
        lemma_start_code(m, pos, row);
        lemma_fresh_shrinks(m, visited, start_code(pos, row));
        let seen = visited.insert(start_code(pos, row));
        let p = song_order(m)[pos];
        if p >= m.patterns.len() {
            lemma_starts(m, pos + 1, 0, seen);
        } else {
            let next = next_start(m.patterns[p], row, pos);
            lemma_starts(m, next.0, next.1, seen);
            let rest = starts(m, next.0, next.1, seen);
            let all = starts(m, pos, row, visited);
            assert(all =~= seq![(pos, row)] + rest);
            assert(all.drop_first() =~= rest);
            assert(all[0] == (pos, row));
            assert forall|i: int| 1 <= i < all.len() implies all[i] == rest[i - 1] by {}
        }
    }
}

/// The song is one linear pass: it is made of pattern plays, and no two of them start at the
/// same row of the same position.
pub proof fn law_one_linear_pass(m: ModuleView)
    ensures
        song_rows(m) == plays(m, starts(m, 0, 0, Set::empty())),
        starts(m, 0, 0, Set::empty()).no_duplicates(),
{
    lemma_starts(m, 0, 0, Set::empty());
}

proof fn lemma_played_rows(rows: Seq<Seq<Cell>>, start: int, i: int)
    requires
        0 <= start,
        0 <= i < played_rows(rows, start),
    ensures
        start + i < rows.len(),
        i + 1 < played_rows(rows, start) ==> !ends_play(rows[start + i]),
    decreases i,
{
    if i > 0 {
        lemma_played_rows(rows, start + 1, i - 1);
    }
}

/// Within one pattern play the rows follow one another, and only the last of them can hold a
/// Position Jump or a Pattern Break: the rows behind such an effect are not played.
pub proof fn law_no_row_behind_a_jump(m: ModuleView, pos: int, start: int, i: int)
    requires
        0 <= start,
        0 <= i,
        i + 1 < play(m, pos, start).len(),
    ensures
        !ends_play(play(m, pos, start)[i].row),
        play(m, pos, start)[i + 1].row_index == play(m, pos, start)[i].row_index + 1,
{
    lemma_played_rows(m.patterns[song_order(m)[pos]], start, i);
}

proof fn lemma_walk_rows(m: ModuleView, pos: int, row: int, visited: Set<int>, i: int)
    requires
        0 <= i < walk(m, pos, row, visited).len(),
    ensures
        ({
            let r = walk(m, pos, row, visited)[i];
            &&& 0 <= r.pattern_index < m.patterns.len()
            &&& 0 <= r.row_index < m.patterns[r.pattern_index].len()
            &&& r.row == m.patterns[r.pattern_index][r.row_index]
        }),
    decreases fresh_starts(m, visited).len(),
{
    lemma_start_code(m, pos, row);
    lemma_fresh_shrinks(m, visited, start_code(pos, row));
    let seen = visited.insert(start_code(pos, row));
    let p = song_order(m)[pos];
    if p >= m.patterns.len() {
        lemma_walk_rows(m, pos + 1, 0, seen, i);
    } else {
        let first = play(m, pos, row);
        if i < first.len() {
            lemma_played_rows(m.patterns[p], row, i);
        } else {
            let next = next_start(m.patterns[p], row, pos);
            lemma_walk_rows(m, next.0, next.1, seen, i - first.len());
        }
    }
}

/// Every row of the song is a row of one of the module's patterns.
pub proof fn law_rows_are_pattern_rows(m: ModuleView, i: int)
    requires
        0 <= i < song_rows(m).len(),
    ensures
        ({
            let r = song_rows(m)[i];
            &&& 0 <= r.pattern_index < m.patterns.len()
            &&& 0 <= r.row_index < m.patterns[r.pattern_index].len()
            &&& r.row == m.patterns[r.pattern_index][r.row_index]
        }),
{
    lemma_walk_rows(m, 0, 0, Set::empty(), i);
}

/// The jump and the break that a row asks for.
fn row_flow(row: &Vec<Cell>) -> (r: (Option<usize>, Option<usize>))
    ensures
        match r.0 {
            Some(p) => jump_of(row@) == Some(p as int),
            None => jump_of(row@) is None,
        },
        match r.1 {
            Some(b) => break_of(row@) == Some(b as int) && b < BREAK_ROWS,
            None => break_of(row@) is None,
        },
{
    let mut jump: Option<usize> = None;
    let mut brk: Option<usize> = None;
    let mut c: usize = 0;
    while c < row.len()
        invariant
            c <= row.len(),
            match jump {
                Some(p) => jump_of(row@.take(c as int)) == Some(p as int),
                None => jump_of(row@.take(c as int)) is None,
            },
            match brk {
                Some(b) => break_of(row@.take(c as int)) == Some(b as int) && b < BREAK_ROWS,
                None => break_of(row@.take(c as int)) is None,
            },
        decreases row.len() - c,
    {
        let cell: Cell = row[c];
        proof {
            assert(row@.take(c + 1).drop_last() =~= row@.take(c as int));
            assert(row@.take(c + 1).last() == cell);
        }
        if cell.effect == Some(POSITION_JUMP) {
            if let Some(param) = cell.effect_param {
                jump = Some(param as usize);
            }
        } else if cell.effect == Some(PATTERN_BREAK) {
            if let Some(param) = cell.effect_param {
                brk = Some(bcd_row(param));
            }
        }
        c += 1;
    }
    assert(row@.take(c as int) =~= row@);
    (jump, brk)
}

/// The rows of the song in actual playback order.
///
/// Stops at the end of the order table, or when a jump would revisit an already-played
/// (position, row) starting point, i.e. at the song's loop point, so the result is one linear
/// pass rather than an infinite loop.
pub fn iter_song_rows(module: &Module) -> (out: Vec<SongRow<'_>>)
    ensures
        song_row_views(out@) == song_rows(module@),
{
    broadcast use vstd::std_specs::hash::group_hash_axioms;

    let ghost m = module@;
    let mut out: Vec<SongRow<'_>> = Vec::new();
    let use_order: bool = module.order.len() > 0;
    let n: usize = if use_order {
        module.order.len()
    } else {
        module.patterns.len()
    };
    let mut visited: HashSet<u128> = HashSet::new();
    let ghost mut seen: Set<int> = Set::empty();
    let mut order_pos: usize = 0;
    let mut start_row: usize = 0;
    assert(song_row_views(out@) + walk(m, 0, 0, seen) =~= song_rows(m));
    while order_pos < n
        invariant
            m == module@,
            n == song_order(m).len(),
            use_order == (module.order.len() > 0),
            start_row < BREAK_ROWS,
            forall|c: u128| visited@.contains(c) <==> seen.contains(c as int),
            song_row_views(out@) + walk(m, order_pos as int, start_row as int, seen) == song_rows(m),
        decreases fresh_starts(m, seen).len(),
    {
        let code: u128 = order_pos as u128 * 64 + start_row as u128;
        assert(code == start_code(order_pos as int, start_row as int));
        if !visited.insert(code) {
            assert(song_row_views(out@) + Seq::<SongRowView>::empty() =~= song_row_views(out@));
            return out;
        }
        proof {
            lemma_start_code(m, order_pos as int, start_row as int);
            lemma_fresh_shrinks(m, seen, code as int);
            seen = seen.insert(code as int);
        }
        let pattern_index: usize = if use_order {
            module.order[order_pos] as usize
        } else {
            order_pos
        };
        assert(pattern_index == song_order(m)[order_pos as int]);
        if pattern_index >= module.patterns.len() {
            order_pos = order_pos + 1;
            start_row = 0;
            continue ;
        }
        let rows: &Vec<Vec<Cell>> = &module.patterns[pattern_index].rows;
        let ghost pat = m.patterns[pattern_index as int];
        assert(pat.len() == rows.len());
        let mut next_order_pos: usize = order_pos + 1;
        let mut next_row: usize = 0;
        let mut row_index: usize = start_row;
        let ghost out0 = song_row_views(out@);
        let ghost whole = play(m, order_pos as int, start_row as int);
        let mut stopped: bool = false;
        assert(out0 + whole.take(0) =~= out0);
        while row_index < rows.len() && !stopped
            invariant
                m == module@,
                pattern_index < module.patterns.len(),
                rows == module.patterns[pattern_index as int].rows,
                pat == m.patterns[pattern_index as int],
                pat.len() == rows.len(),
                pattern_index == song_order(m)[order_pos as int],
                whole == play(m, order_pos as int, start_row as int),
                start_row <= row_index,
                start_row < BREAK_ROWS,
                order_pos < n,
                next_row < BREAK_ROWS,
                row_index <= rows.len() || row_index == start_row,
                row_index - start_row <= whole.len(),
                song_row_views(out@) == out0 + whole.take(row_index - start_row),
                !stopped ==> whole.len() == (row_index - start_row) + played_rows(
                    pat,
                    row_index as int,
                ),
                !stopped ==> next_order_pos == order_pos + 1 && next_row == 0 && (row_index
                    > start_row ==> !ends_play(pat[row_index - 1])),
                stopped ==> whole.len() == row_index - start_row && row_index > start_row
                    && ends_play(pat[row_index - 1]) && (next_order_pos as int, next_row as int)
                    == next_start(pat, start_row as int, order_pos as int),
            decreases rows.len() - row_index + (if stopped {
                0int
            } else {
                1
            }),
        {
            let row: &Vec<Cell> = &rows[row_index];
            assert(pat[row_index as int] == row@);
            let entry = SongRow {
                order_pos,
                pattern_index,
                row_index,
                row: row.as_slice(),
            };
            let ghost done = out@;
            out.push(entry);
            proof {
                assert(song_row_views(out@) =~= song_row_views(done).push(entry@));
                assert(whole[row_index - start_row] == entry@);
                assert(whole.take(row_index + 1 - start_row) =~= whole.take(
                    row_index - start_row,
                ).push(entry@));
                assert(out0 + whole.take(row_index + 1 - start_row) =~= (out0 + whole.take(
                    row_index - start_row,
                )).push(entry@));
            }
            let (jump, brk) = row_flow(row);
            if jump.is_some() || brk.is_some() {
                next_order_pos = match jump {
                    Some(p) => p,
                    None => order_pos + 1,
                };
                next_row = match brk {
                    Some(b) => b,
                    None => 0,
                };
                stopped = true;
            }
            row_index = row_index + 1;
        }
        proof {
            assert(whole.take(row_index - start_row) =~= whole);
            let next = next_start(pat, start_row as int, order_pos as int);
            assert((next_order_pos as int, next_row as int) == next);
            assert(out0 + (whole + walk(m, next.0, next.1, seen)) =~= (out0 + whole) + walk(
                m,
                next.0,
                next.1,
                seen,
            ));
        }
        order_pos = next_order_pos;
        start_row = next_row;
    }
    assert(song_row_views(out@) + Seq::<SongRowView>::empty() =~= song_row_views(out@));
    out
}

} // verus!
