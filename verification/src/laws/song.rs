//! In what order a song's rows are played, and how fast.
use crate::export::tempo::{law_segments_cover, segments_of, tempo_track, Tempo, TempoTrack};
use crate::formats::base::{Cell, ModuleView};
use crate::formats::playback::{
    break_of, fresh_starts, jump_of, law_no_row_behind_a_jump, lemma_fresh_shrinks,
    lemma_start_code, next_start, play, played_rows, song_order, song_rows, start_code, walk,
    SongRowView,
};
use vstd::prelude::*;

verus! {

/// A cell has an effect, with a parameter.
pub open spec fn has_effect(c: Cell, effect: u32) -> bool {
    c.effect == Some(effect) && c.effect_param is Some
}

/// No cell of a row has the effect.
pub open spec fn silent(row: Seq<Cell>, effect: u32) -> bool {
    forall|c: int| 0 <= c < row.len() ==> !has_effect(#[trigger] row[c], effect)
}

/// The last cell of a row that has the effect has it with this parameter.
pub open spec fn tells(row: Seq<Cell>, effect: u32, param: u32) -> bool {
    exists|c: int|
        0 <= c < row.len() && has_effect(#[trigger] row[c], effect) && row[c].effect_param == Some(
            param,
        ) && forall|d: int| c < d < row.len() ==> !has_effect(#[trigger] row[d], effect)
}

proof fn lemma_jump(row: Seq<Cell>, x: u32)
    ensures
        silent(row, 0xB) ==> jump_of(row) is None,
        tells(row, 0xB, x) ==> jump_of(row) == Some(x as int),
    decreases row.len(),
{
    if row.len() > 0 {
        let before = row.drop_last();
        lemma_jump(before, x);
        assert(row.last() == row[row.len() - 1]);
        if silent(row, 0xB) {
            assert forall|c: int| 0 <= c < before.len() implies !has_effect(
                #[trigger] before[c],
                0xB,
            ) by {
                assert(before[c] == row[c]);
            }
        }
        if tells(row, 0xB, x) && !has_effect(row.last(), 0xB) {
            let c = choose|c: int|
                0 <= c < row.len() && has_effect(#[trigger] row[c], 0xB) && row[c].effect_param
                    == Some(x) && forall|d: int|
                    c < d < row.len() ==> !has_effect(#[trigger] row[d], 0xB);
            assert(before[c] == row[c]);
            assert forall|d: int| c < d < before.len() implies !has_effect(
                #[trigger] before[d],
                0xB,
            ) by {
                assert(before[d] == row[d]);
            }
            assert(tells(before, 0xB, x));
        }
    }
}

/// The row that a break goes on with: its parameter's digits are decimal, and there is no row
/// past 63.
pub open spec fn decimal_row(x: u32) -> int {
    let row = 10 * (x as int / 16) + x as int % 16;
    if row <= 63 {
        row
    } else {
        0
    }
}

proof fn lemma_break(row: Seq<Cell>, x: u32)
    ensures
        silent(row, 0xD) ==> break_of(row) is None,
        tells(row, 0xD, x) ==> break_of(row) == Some(decimal_row(x)),
    decreases row.len(),
{
    if row.len() > 0 {
        let before = row.drop_last();
        lemma_break(before, x);
        assert(row.last() == row[row.len() - 1]);
        if silent(row, 0xD) {
            assert forall|c: int| 0 <= c < before.len() implies !has_effect(
                #[trigger] before[c],
                0xD,
            ) by {
                assert(before[c] == row[c]);
            }
        }
        if tells(row, 0xD, x) && !has_effect(row.last(), 0xD) {
            let c = choose|c: int|
                0 <= c < row.len() && has_effect(#[trigger] row[c], 0xD) && row[c].effect_param
                    == Some(x) && forall|d: int|
                    c < d < row.len() ==> !has_effect(#[trigger] row[d], 0xD);
            assert(before[c] == row[c]);
            assert forall|d: int| c < d < before.len() implies !has_effect(
                #[trigger] before[d],
                0xD,
            ) by {
                assert(before[d] == row[d]);
            }
            assert(tells(before, 0xD, x));
        }
    }
}

/// The pattern that a position of the song's order names; where there is no order, the patterns
/// are played as they are numbered.
pub open spec fn ordered(m: ModuleView, pos: int) -> int {
    if m.order.len() > 0 {
        m.order[pos] as int
    } else {
        pos
    }
}

/// A position of the order, and a row of the pattern there.
pub open spec fn is_row(m: ModuleView, pos: int, row: int) -> bool {
    &&& 0 <= pos
    &&& pos < m.order.len() || (m.order.len() == 0 && pos < m.patterns.len())
    &&& ordered(m, pos) < m.patterns.len()
    &&& 0 <= row < m.patterns[ordered(m, pos)].len()
    &&& row < 64
}

/// A row of the song is this one.
pub open spec fn stands(m: ModuleView, r: SongRowView, pos: int, row: int) -> bool {
    &&& r.order_pos == pos
    &&& r.row_index == row
    &&& r.pattern_index == ordered(m, pos)
    &&& r.row == m.patterns[ordered(m, pos)][row]
}

proof fn lemma_head(m: ModuleView, pos: int, row: int, visited: Set<int>)
    ensures
        is_row(m, pos, row) && walk(m, pos, row, visited).len() > 0 ==> stands(
            m,
            walk(m, pos, row, visited)[0],
            pos,
            row,
        ),
        is_row(m, pos, row) && walk(m, pos, row, visited).len() == 0 ==> visited.contains(
            start_code(pos, row),
        ),
{
    if is_row(m, pos, row) {
        assert(song_order(m)[pos] == ordered(m, pos));
        assert(played_rows(m.patterns[ordered(m, pos)], row) > 0);
    }
}

/// A row of the song is followed as its jumps and breaks say.
pub open spec fn followed(m: ModuleView, a: SongRowView, b: SongRowView, x: u32, y: u32) -> bool {
    let (pos, row) = (a.order_pos, a.row_index);
    let jumps = tells(a.row, 0xB, x);
    let breaks = tells(a.row, 0xD, y);
    &&& silent(a.row, 0xB) && silent(a.row, 0xD) && row + 1 < m.patterns[a.pattern_index].len()
        ==> stands(m, b, pos, row + 1)
    &&& silent(a.row, 0xB) && silent(a.row, 0xD) && row + 1 == m.patterns[a.pattern_index].len()
        && is_row(m, pos + 1, 0) ==> stands(m, b, pos + 1, 0)
    &&& jumps && silent(a.row, 0xD) && is_row(m, x as int, 0) ==> stands(m, b, x as int, 0)
    &&& silent(a.row, 0xB) && breaks && is_row(m, pos + 1, decimal_row(y)) ==> stands(
        m,
        b,
        pos + 1,
        decimal_row(y),
    )
    &&& jumps && breaks && is_row(m, x as int, decimal_row(y)) ==> stands(
        m,
        b,
        x as int,
        decimal_row(y),
    )
}

proof fn lemma_last_played(rows: Seq<Seq<Cell>>, start: int)
    requires
        0 <= start < rows.len(),
    ensures
        ({
            let last = start + played_rows(rows, start) - 1;
            &&& start <= last < rows.len()
            &&& last + 1 < rows.len() ==> jump_of(rows[last]) is Some || break_of(
                rows[last],
            ) is Some
        }),
    decreases rows.len() - start,
{
    if start + 1 < rows.len() {
        lemma_last_played(rows, start + 1);
    } else {
        assert(played_rows(rows, start + 1) == 0);
    }
}

proof fn lemma_followed(
    m: ModuleView,
    pos: int,
    row: int,
    visited: Set<int>,
    i: int,
    x: u32,
    y: u32,
)
    requires
        0 <= i,
        i + 1 < walk(m, pos, row, visited).len(),
    ensures
        followed(m, walk(m, pos, row, visited)[i], walk(m, pos, row, visited)[i + 1], x, y),
    decreases fresh_starts(m, visited).len(),
{
    lemma_start_code(m, pos, row);
    lemma_fresh_shrinks(m, visited, start_code(pos, row));
    let w = walk(m, pos, row, visited);
    let seen = visited.insert(start_code(pos, row));
    let p = song_order(m)[pos];
    assert(p == ordered(m, pos));
    if p >= m.patterns.len() {
        lemma_followed(m, pos + 1, 0, seen, i, x, y);
    } else {
        let rows = m.patterns[p];
        let played = play(m, pos, row);
        let next = next_start(rows, row, pos);
        let rest = walk(m, next.0, next.1, seen);
        if i >= played.len() {
            lemma_followed(m, next.0, next.1, seen, i - played.len(), x, y);
            assert(w[i] == rest[i - played.len()]);
            assert(w[i + 1] == rest[i + 1 - played.len()]);
        } else {
            let a = w[i];
            assert(a == played[i]);
            lemma_jump(a.row, x);
            lemma_break(a.row, y);
            lemma_last_played(rows, row);
            if i + 1 < played.len() {
                assert(w[i + 1] == played[i + 1]);
                law_no_row_behind_a_jump(m, pos, row, i);
            } else {
                assert(w[i + 1] == rest[0]);
                assert(a.row == rows[row + played.len() - 1]);
                lemma_head(m, next.0, next.1, seen);
            }
        }
    }
}

/// The row behind a row of the song: the next of its pattern, or the first of the next in the
/// order behind the last one; a position jump goes on at the position that it tells, a pattern
/// break at the row that it tells of the next position, and both together at that row of that
/// position.
pub proof fn law_rows_follow_their_jumps(m: ModuleView, i: int, x: u32, y: u32)
    requires
        0 <= i,
        i + 1 < song_rows(m).len(),
    ensures
        followed(m, song_rows(m)[i], song_rows(m)[i + 1], x, y),
{
    lemma_followed(m, 0, 0, Set::empty(), i, x, y);
}

/// A song begins with the first row of the first pattern of its order.
pub proof fn law_songs_begin_at_the_beginning(m: ModuleView)
    requires
        is_row(m, 0, 0),
    ensures
        song_rows(m).len() > 0,
        stands(m, song_rows(m)[0], 0, 0),
{
    lemma_head(m, 0, 0, Set::empty());
}

/// Among rows is one that stands there.
pub open spec fn been(m: ModuleView, rows: Seq<SongRowView>, pos: int, row: int) -> bool {
    exists|k: int| 0 <= k < rows.len() && stands(m, #[trigger] rows[k], pos, row)
}

/// What is marked as visited has been played.
pub open spec fn visited_are_played(
    m: ModuleView,
    rows: Seq<SongRowView>,
    visited: Set<int>,
) -> bool {
    forall|pos: int, row: int|
        is_row(m, pos, row) && visited.contains(#[trigger] start_code(pos, row)) ==> been(
            m,
            rows,
            pos,
            row,
        )
}

proof fn lemma_goes_on(
    m: ModuleView,
    before: Seq<SongRowView>,
    pos: int,
    row: int,
    visited: Set<int>,
    x: u32,
    y: u32,
)
    requires
        visited_are_played(m, before, visited),
        before.len() > 0 && is_row(m, pos, row) || walk(m, pos, row, visited).len() > 0,
    ensures
        ({
            let all = before + walk(m, pos, row, visited);
            walk(m, pos, row, visited).len() > 0 ==> ends_where_it_was(m, all, x, y)
        }),
    decreases fresh_starts(m, visited).len(),
{
    let w = walk(m, pos, row, visited);
    if w.len() > 0 {
        lemma_start_code(m, pos, row);
        lemma_fresh_shrinks(m, visited, start_code(pos, row));
        let seen = visited.insert(start_code(pos, row));
        let p = song_order(m)[pos];
        assert(p == ordered(m, pos));
        if p >= m.patterns.len() {
            lemma_seen(m, before, pos, row, visited);
            lemma_goes_on(m, before, pos + 1, 0, seen, x, y);
        } else {
            let rows = m.patterns[p];
            let played = play(m, pos, row);
            let next = next_start(rows, row, pos);
            let rest = walk(m, next.0, next.1, seen);
            let now = before + played;
            assert(before + w =~= now + rest);
            lemma_more(m, before, played, visited);
            if played.len() > 0 {
                assert(now[before.len() as int] == played[0]);
                assert(is_row(m, pos, row) ==> stands(m, now[before.len() as int], pos, row));
            }
            assert(is_row(m, pos, row) ==> played.len() > 0);
            lemma_seen(m, now, pos, row, visited);
            if rest.len() > 0 {
                lemma_goes_on(m, now, next.0, next.1, seen, x, y);
            } else {
                assert(played.len() > 0);
                assert(before + w =~= now);
                let a = now.last();
                assert(a == played[played.len() - 1]);
                lemma_jump(a.row, x);
                lemma_break(a.row, y);
                lemma_last_played(rows, row);
                lemma_head(m, next.0, next.1, seen);
                assert(start_code(next.0, next.1) == start_code(next.0, next.1));
            }
        }
    }
}

proof fn lemma_more(
    m: ModuleView,
    before: Seq<SongRowView>,
    more: Seq<SongRowView>,
    visited: Set<int>,
)
    requires
        visited_are_played(m, before, visited),
    ensures
        visited_are_played(m, before + more, visited),
{
    assert forall|pos: int, row: int|
        is_row(m, pos, row) && visited.contains(#[trigger] start_code(pos, row)) implies been(
        m,
        before + more,
        pos,
        row,
    ) by {
        let k = choose|k: int| 0 <= k < before.len() && stands(m, #[trigger] before[k], pos, row);
        assert((before + more)[k] == before[k]);
    }
}

proof fn lemma_seen(m: ModuleView, rows: Seq<SongRowView>, pos: int, row: int, visited: Set<int>)
    requires
        visited_are_played(m, rows, visited),
        is_row(m, pos, row) ==> been(m, rows, pos, row),
        0 <= row < 64,
        0 <= pos,
    ensures
        visited_are_played(m, rows, visited.insert(start_code(pos, row))),
{
    assert forall|p: int, r: int|
        is_row(m, p, r) && visited.insert(start_code(pos, row)).contains(
            #[trigger] start_code(p, r),
        ) implies been(m, rows, p, r) by {
        if start_code(p, r) == start_code(pos, row) {
            assert(p == pos && r == row);
        }
    }
}

/// The last of the rows would be followed by one that is among them.
pub open spec fn ends_where_it_was(m: ModuleView, rows: Seq<SongRowView>, x: u32, y: u32) -> bool {
    let a = rows.last();
    let pos = a.order_pos;
    let jumps = tells(a.row, 0xB, x);
    let breaks = tells(a.row, 0xD, y);
    &&& silent(a.row, 0xB) && silent(a.row, 0xD) ==> a.row_index + 1
        == m.patterns[a.pattern_index].len()
    &&& silent(a.row, 0xB) && silent(a.row, 0xD) && is_row(m, pos + 1, 0) ==> been(
        m,
        rows,
        pos + 1,
        0,
    )
    &&& jumps && silent(a.row, 0xD) && is_row(m, x as int, 0) ==> been(m, rows, x as int, 0)
    &&& silent(a.row, 0xB) && breaks && is_row(m, pos + 1, decimal_row(y)) ==> been(
        m,
        rows,
        pos + 1,
        decimal_row(y),
    )
    &&& jumps && breaks && is_row(m, x as int, decimal_row(y)) ==> been(
        m,
        rows,
        x as int,
        decimal_row(y),
    )
}

/// A song ends only where it would go on with a row that it has played.
pub proof fn law_songs_end_where_they_have_been(m: ModuleView, x: u32, y: u32)
    requires
        song_rows(m).len() > 0,
    ensures
        ends_where_it_was(m, song_rows(m), x, y),
{
    lemma_goes_on(m, Seq::empty(), 0, 0, Set::empty(), x, y);
    assert(Seq::<SongRowView>::empty() + song_rows(m) =~= song_rows(m));
}

/// The speed effect sets the ticks of a row below 32 and the tempo from 32 on; zero sets
/// neither, and no other effect does.
pub proof fn law_speed_and_tempo_are_set(t: Tempo, c: Cell)
    ensures
        ({
            let after = t.after_cell(c);
            &&& has_effect(c, 0xF) && 1 <= c.effect_param->0 <= 31 ==> after.speed
                == c.effect_param->0 && after.tracker_bpm == t.tracker_bpm
            &&& has_effect(c, 0xF) && c.effect_param->0 >= 32 ==> after.tracker_bpm
                == c.effect_param->0 && after.speed == t.speed
            &&& !has_effect(c, 0xF) || c.effect_param->0 == 0 ==> after == t
        }),
{
}

/// Two tempos at which a row lasts as long.
pub open spec fn as_fast(a: Tempo, b: Tempo) -> bool {
    a.tracker_bpm * b.speed == b.tracker_bpm * a.speed
}

pub open spec fn runs(t: Tempo) -> bool {
    t.tracker_bpm > 0 && t.speed > 0
}

pub open spec fn tells_the_tempo(t: TempoTrack) -> bool {
    &&& runs(t.tempo)
    &&& t.changes.len() > 0
    &&& runs(t.changes.last().tempo)
    &&& as_fast(t.changes.last().tempo, t.tempo)
}

proof fn lemma_as_fast(a: Tempo, b: Tempo, c: Tempo)
    requires
        runs(b),
        as_fast(a, b),
        as_fast(b, c),
    ensures
        as_fast(a, c),
{
    let (x, y, z) = (a.tracker_bpm as int, b.tracker_bpm as int, c.tracker_bpm as int);
    let (u, v, w) = (a.speed as int, b.speed as int, c.speed as int);
    assert(x * w == z * u) by (nonlinear_arith)
        requires
            x * v == y * u,
            y * w == z * v,
            v > 0,
            y > 0,
    {
        assert(v * (x * w) == (x * v) * w);
        assert((x * v) * w == (y * u) * w);
        assert((y * u) * w == (y * w) * u);
        assert((y * w) * u == (z * v) * u);
        assert((z * v) * u == v * (z * u));
    }
}

proof fn lemma_cell_tells(t: TempoTrack, c: Cell, row: usize)
    requires
        tells_the_tempo(t),
    ensures
        tells_the_tempo(t.after_cell(c, row)),
{
    let after = t.after_cell(c, row);
    let tempo = t.tempo.after_cell(c);
    if tempo.same(t.tempo) {
        assert(tempo.tracker_bpm * t.tempo.speed == t.tempo.tracker_bpm * tempo.speed);
        lemma_as_fast(t.changes.last().tempo, t.tempo, tempo);
    }
}

proof fn lemma_row_tells(t: TempoTrack, cells: Seq<Cell>, row: usize)
    requires
        tells_the_tempo(t),
    ensures
        tells_the_tempo(t.after_row(cells, row)),
    decreases cells.len(),
{
    if cells.len() > 0 {
        lemma_row_tells(t, cells.drop_last(), row);
        lemma_cell_tells(t.after_row(cells.drop_last(), row), cells.last(), row);
    }
}

/// The last change of a song's tempo tells how fast its rows are from there on, and the first
/// is the tempo that the module begins with.
pub proof fn law_changes_tell_the_tempo(initial: Tempo, rows: Seq<SongRowView>)
    requires
        runs(initial),
    ensures
        tells_the_tempo(tempo_track(initial, rows)),
        rows.len() == 0 ==> tempo_track(initial, rows).tempo == initial && tempo_track(
            initial,
            rows,
        ).changes.len() == 1 && tempo_track(initial, rows).changes[0].row == 0,
    decreases rows.len(),
{
    if rows.len() > 0 {
        law_changes_tell_the_tempo(initial, rows.drop_last());
        lemma_row_tells(
            tempo_track(initial, rows.drop_last()),
            rows.last().row,
            (rows.len() - 1) as usize,
        );
    }
}

/// A row that sets the tempo once is a change of the song where the rows get slower or faster,
/// at that row.
pub proof fn law_changes_are_at_their_row(initial: Tempo, rows: Seq<SongRowView>, c: Cell)
    requires
        runs(initial),
        0 < rows.len() <= usize::MAX,
        rows.last().row == seq![c],
        has_effect(c, 0xF),
        c.effect_param->0 > 0,
    ensures
        ({
            let before = tempo_track(initial, rows.drop_last());
            let after = tempo_track(initial, rows);
            &&& after.tempo == before.tempo.after_cell(c)
            &&& as_fast(before.tempo, after.tempo) ==> after.changes == before.changes
            &&& !as_fast(before.tempo, after.tempo) ==> after.changes.last().row == rows.len() - 1
                && after.changes.last().tempo == after.tempo
        }),
{
    let before = tempo_track(initial, rows.drop_last());
    law_changes_tell_the_tempo(initial, rows.drop_last());
    let cells = rows.last().row;
    let row = (rows.len() - 1) as usize;
    assert(cells.drop_last() =~= Seq::empty());
    assert(cells.last() == c);
    assert(before.after_row(cells.drop_last(), row) == before);
    assert(before.after_row(cells, row) == before.after_cell(c, row));
}

/// The rows of a segment are the song's rows at one position of the order, and the rows of the
/// next one are at another.
pub proof fn law_segments_are_positions(rows: Seq<SongRowView>, s: int, k: int)
    requires
        rows.len() <= usize::MAX,
        forall|i: int|
            0 <= i < rows.len() ==> 0 <= (#[trigger] rows[i]).order_pos <= usize::MAX && 0
                <= rows[i].pattern_index <= usize::MAX,
        0 <= s < segments_of(rows).len(),
        segments_of(rows)[s].start_row <= k < segments_of(rows)[s].end_row,
    ensures
        k < rows.len(),
        rows[k].order_pos == segments_of(rows)[s].order_pos,
        k == segments_of(rows)[s].start_row ==> rows[k].pattern_index
            == segments_of(rows)[s].pattern_index,
        s > 0 ==> segments_of(rows)[s - 1].order_pos != segments_of(rows)[s].order_pos,
    decreases rows.len(),
{
    let n = rows.len() - 1;
    let before = rows.drop_last();
    let made = segments_of(before);
    let now = segments_of(rows);
    law_segments_cover(before);
    law_segments_cover(rows);
    assert(rows.last() == rows[n]);
    assert forall|i: int| 0 <= i < before.len() implies 0 <= (#[trigger] before[i]).order_pos
        <= usize::MAX && 0 <= before[i].pattern_index <= usize::MAX by {
        assert(before[i] == rows[i]);
    }
    if s < made.len() {
        if k < made[s].end_row {
            law_segments_are_positions(before, s, k);
        } else {
            law_segments_are_positions(before, s, made[s].start_row as int);
            assert(k == n);
        }
    } else {
        assert(k == n);
        if made.len() > 0 {
            assert(made.last().order_pos != rows[n].order_pos);
        }
    }
}

} // verus!
