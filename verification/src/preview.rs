//! The layout of the preview window, and its timing.
//!
//! The window is a grid of cells, one for each channel and one in the middle for the file's
//! own data.
use vstd::prelude::*;

verus! {

pub const WINDOW_WIDTH: u32 = 1920;

pub const WINDOW_HEIGHT: u32 = 1080;

/// More cells than this would be too small to read. One of them shows the file's data.
pub const GRID_MAX_CELLS: usize = 16;

/// How much of the sound a cell shows: the frames before the one that is played.
pub const SCOPE_FRAMES: usize = 1024;

/// Pictures in a second of a recording.
pub const RECORD_FPS: u32 = 30;

/// The columns that a number of cells takes: as many as rows, or one more where that does not
/// come out even.
pub open spec fn columns_from(c: int, n: int) -> int
    decreases n - c,
{
    if c >= n || c * c >= n {
        c
    } else {
        columns_from(c + 1, n)
    }
}

pub open spec fn grid_columns(n: int) -> int {
    if n <= 0 {
        1
    } else {
        columns_from(1, n)
    }
}

pub open spec fn grid_rows(n: int) -> int {
    if n <= 0 {
        1
    } else {
        (n + grid_columns(n) - 1) / grid_columns(n)
    }
}

proof fn lemma_columns(c: int, n: int)
    requires
        1 <= c <= n,
        c == 1 || (c - 1) * (c - 1) < n,
    ensures
        ({
            let r = columns_from(c, n);
            &&& c <= r <= n
            &&& r * r >= n
            &&& r == 1 || (r - 1) * (r - 1) < n
        }),
    decreases n - c,
{
    if c >= n {
        assert(c * c >= n) by (nonlinear_arith)
            requires
                c == n,
                n >= 1,
        ;
    } else if c * c < n {
        lemma_columns(c + 1, n);
    }
}

/// What is known of the grid of a number of cells that a `u32` holds.
proof fn lemma_grid_fits(n: int)
    requires
        0 < n <= u32::MAX,
    ensures
        1 <= grid_columns(n) <= 0x1_0000,
        1 <= grid_rows(n) <= grid_columns(n),
        center_of(grid_columns(n) as u32, grid_rows(n) as u32) <= u32::MAX,
{
    lemma_columns(1, n);
    law_grid_holds_its_cells(n);
    let c = grid_columns(n);
    let r = grid_rows(n);
    assert(c <= 0x1_0000) by (nonlinear_arith)
        requires
            c == 1 || (c - 1) * (c - 1) < n,
            n <= 0xffff_ffff,
    ;
    assert(r >= 1) by (nonlinear_arith)
        requires
            c * r >= n,
            n > 0,
            c >= 1,
    ;
    assert((r / 2) * c <= 0x8000 * 0x1_0000) by (nonlinear_arith)
        requires
            0 <= r / 2 <= 0x8000,
            1 <= c <= 0x1_0000,
    ;
}

/// Lays out a grid for a number of cells: gives its columns and rows.
pub fn grid_dims(cells: usize) -> (r: (u32, u32))
    requires
        cells <= u32::MAX,
    ensures
        r.0 == grid_columns(cells as int),
        r.1 == grid_rows(cells as int),
        0 < r.0,
        0 < r.1,
        center_of(r.0, r.1) <= u32::MAX,
{
    if cells == 0 {
        return (1, 1);
    }
    let n: u64 = cells as u64;
    let mut c: u64 = 1;
    proof {
        lemma_columns(1, n as int);
        lemma_grid_fits(n as int);
    }
    assert(1 * 1 <= 0x1_0000 * 0x1_0000) by (nonlinear_arith);
    while c < n && c * c < n
        invariant
            1 <= c <= n <= u32::MAX,
            c <= grid_columns(n as int) <= 0x1_0000,
            c * c <= 0x1_0000 * 0x1_0000,
            columns_from(c as int, n as int) == grid_columns(n as int),
        decreases n - c,
    {
        c += 1;
        proof {
            lemma_columns_grow(c as int, n as int);
            assert(c * c <= 0x1_0000 * 0x1_0000) by (nonlinear_arith)
                requires
                    1 <= c <= 0x1_0000,
            ;
        }
    }
    assert(c == grid_columns(n as int));
    (c as u32, ((n + c - 1) / c) as u32)
}

proof fn lemma_columns_grow(c: int, n: int)
    requires
        c <= n,
    ensures
        c <= columns_from(c, n),
    decreases n - c,
{
    if c < n && c * c < n {
        lemma_columns_grow(c + 1, n);
    }
}

/// A grid has room for its cells, its last row is not empty, and it is as square as can be:
/// with one column less, it would be higher than wide.
pub proof fn law_grid_holds_its_cells(n: int)
    requires
        0 < n,
    ensures
        ({
            let c = grid_columns(n);
            let r = grid_rows(n);
            &&& c * r >= n
            &&& c * (r - 1) < n
            &&& r <= c
            &&& c == 1 || (c - 1) * (c - 1) < n
        }),
{
    lemma_columns(1, n);
    let c = grid_columns(n);
    let r = grid_rows(n);
    let x = n + c - 1;
    vstd::arithmetic::div_mod::lemma_fundamental_div_mod(x, c);
    assert(0 <= x % c < c) by (nonlinear_arith)
        requires
            c > 0,
    ;
    assert(c * (r - 1) == c * r - c) by (nonlinear_arith);
    assert(r <= c) by (nonlinear_arith)
        requires
            c * r <= n + c - 1,
            n <= c * c,
            c >= 1,
    ;
}

/// The cell of the file's data: the one in the middle, or the last before it.
pub open spec fn center_of(columns: u32, rows: u32) -> int {
    (rows / 2) * columns + columns / 2
}

pub fn center_slot(columns: u32, rows: u32) -> (r: usize)
    requires
        center_of(columns, rows) <= u32::MAX,
    ensures
        r == center_of(columns, rows),
{
    assert((rows / 2) * columns >= 0) by (nonlinear_arith);
    ((rows / 2) * columns + columns / 2) as usize
}

/// The cell of a track: tracks stand in order, and leave out the center.
pub open spec fn slot_of(track: int, center: int) -> int {
    if track < center {
        track
    } else {
        track + 1
    }
}

pub fn slot_for_track(track: usize, center: usize) -> (r: usize)
    requires
        track < usize::MAX,
    ensures
        r == slot_of(track as int, center as int),
{
    if track < center {
        track
    } else {
        track + 1
    }
}

/// No track stands in the center, no two tracks in the same cell, and all of them in the grid
/// that was laid out for them and the center.
pub proof fn law_slots_are_apart(tracks: int, a: int, b: int)
    requires
        0 <= a < b < tracks,
        tracks < 0xffff,
    ensures
        ({
            let c = grid_columns(tracks + 1);
            let r = grid_rows(tracks + 1);
            let center = center_of(c as u32, r as u32);
            &&& slot_of(a, center) != center
            &&& slot_of(b, center) != center
            &&& slot_of(a, center) < slot_of(b, center) < c * r
            &&& 0 <= center < c * r
        }),
{
    let n = tracks + 1;
    law_grid_holds_its_cells(n);
    lemma_columns(1, n);
    let c = grid_columns(n);
    let r = grid_rows(n);
    assert(1 <= r) by (nonlinear_arith)
        requires
            c * r >= n,
            n > 0,
            c > 0,
    ;
    let h = r / 2;
    let w = c / 2;
    assert(h * c + w < c * r) by (nonlinear_arith)
        requires
            0 <= h <= r - 1,
            0 <= w < c,
            r >= 1,
    ;
    assert(0 <= h * c) by (nonlinear_arith)
        requires
            0 <= h,
            0 <= c,
    ;
    assert((r as u32) / 2 == h && (c as u32) / 2 == w);
}

/// How many tracks get a cell: all that fit beside the file's data.
pub open spec fn cells_of(tracks: int) -> int {
    if tracks < GRID_MAX_CELLS - 1 {
        tracks
    } else {
        GRID_MAX_CELLS - 1
    }
}

pub fn cell_count(tracks: usize) -> (r: usize)
    ensures
        r == cells_of(tracks as int),
{
    if tracks < GRID_MAX_CELLS - 1 {
        tracks
    } else {
        GRID_MAX_CELLS - 1
    }
}

/// The frames that a cell shows while a frame is played.
pub fn scope_window(played: usize, total: usize) -> (r: (usize, usize))
    ensures
        r.1 == if played < total {
            played
        } else {
            total
        },
        r.0 == if r.1 < SCOPE_FRAMES {
            0
        } else {
            r.1 - SCOPE_FRAMES
        },
{
    let end: usize = if played < total {
        played
    } else {
        total
    };
    let start: usize = if end < SCOPE_FRAMES {
        0
    } else {
        end - SCOPE_FRAMES
    };
    (start, end)
}

/// The column of a cell in which a frame of the window is drawn.
pub open spec fn column_of(offset: int, width: int, frames: int) -> int {
    let c = offset * width / frames;
    if c < width - 1 {
        c
    } else {
        width - 1
    }
}

pub fn scope_column(offset: usize, width: u32, frames: usize) -> (r: u32)
    requires
        offset < frames,
        0 < width,
    ensures
        r == column_of(offset as int, width as int, frames as int),
        r < width,
{
    let o: u128 = offset as u128;
    let w: u128 = width as u128;
    assert(o * w <= 0xffff_ffff_ffff_ffff * 0xffff_ffff) by (nonlinear_arith)
        requires
            0 <= o <= 0xffff_ffff_ffff_ffff,
            0 <= w <= 0xffff_ffff,
    ;
    let c: u128 = o * w / (frames as u128);
    if c < w - 1 {
        c as u32
    } else {
        width - 1
    }
}

/// The frame to play next, or none where playing is over: behind the last one it goes on from
/// the start, if it repeats.
pub fn frame_to_play(frame: usize, total: usize, repeats: bool) -> (r: Option<usize>)
    ensures
        r == if frame < total {
            Some(frame)
        } else if repeats && total > 0 {
            Some(0usize)
        } else {
            None
        },
{
    if frame < total {
        Some(frame)
    } else if repeats && total > 0 {
        Some(0)
    } else {
        None
    }
}

/// How many pictures a recording has: enough to reach the end, and at least one.
pub open spec fn pictures(frames: int, rate: int) -> int {
    let n = (30 * frames + rate - 1) / rate;
    if n < 1 {
        1
    } else {
        n
    }
}

pub fn video_frames(frames: u64, rate: u32) -> (r: u128)
    requires
        0 < rate,
    ensures
        r == pictures(frames as int, rate as int),
{
    let n: u128 = (30 * frames as u128 + rate as u128 - 1) / rate as u128;
    if n < 1 {
        1
    } else {
        n
    }
}

/// The frame of the sound that is played at a picture.
pub fn played_at(picture: u64, rate: u32) -> (r: u128)
    ensures
        r == picture * rate / 30,
{
    let p: u128 = picture as u128;
    let q: u128 = rate as u128;
    assert(p * q <= 0xffff_ffff_ffff_ffff * 0xffff_ffff) by (nonlinear_arith)
        requires
            0 <= p <= 0xffff_ffff_ffff_ffff,
            0 <= q <= 0xffff_ffff,
    ;
    p * q / 30
}

} // verus!
