//! The square grid as a sequence of cells in row-major order, what a move makes of it,
//! and when no move is left.

use crate::line::{occupied, slid, MergeDir};
use vstd::prelude::*;

verus! {

/// The direction of a move.
#[derive(Debug, Clone, Copy, PartialEq, Eq, Structural)]
pub enum SlideDir {
    Up,
    Down,
    Left,
    Right,
}

/// The place of the cell in row `r` and column `c` in the sequence of cells.
pub open spec fn at(size: nat, r: int, c: int) -> int {
    r * size + c
}

/// The row of the cell at place `k`.
pub open spec fn row_of(size: nat, k: int) -> int {
    k / (size as int)
}

/// The column of the cell at place `k`.
pub open spec fn column_of(size: nat, k: int) -> int {
    k % (size as int)
}

/// `g` holds the cells of a grid of `size` rows and `size` columns.
pub open spec fn is_grid(size: nat, g: Seq<nat>) -> bool {
    g.len() == size * size
}

/// Row `r` of the grid, from left to right.
pub open spec fn row(size: nat, g: Seq<nat>, r: int) -> Seq<nat> {
    Seq::new(size, |c: int| g[at(size, r, c)])
}

/// Column `c` of the grid, from top to bottom.
pub open spec fn column(size: nat, g: Seq<nat>, c: int) -> Seq<nat> {
    Seq::new(size, |r: int| g[at(size, r, c)])
}

/// The grid whose row `r` is `lines(r)`.
pub open spec fn from_rows(size: nat, lines: spec_fn(int) -> Seq<nat>) -> Seq<nat> {
    Seq::new(size * size, |k: int| lines(row_of(size, k))[column_of(size, k)])
}

/// The grid whose column `c` is `lines(c)`.
pub open spec fn from_columns(size: nat, lines: spec_fn(int) -> Seq<nat>) -> Seq<nat> {
    Seq::new(size * size, |k: int| lines(column_of(size, k))[row_of(size, k)])
}

/// The grid mirrored at its main diagonal: its rows are the columns of `g`.
pub open spec fn transposed(size: nat, g: Seq<nat>) -> Seq<nat> {
    from_rows(size, |r: int| column(size, g, r))
}

/// The end toward which a move packs the lines that it runs along.
pub open spec fn toward(dir: SlideDir) -> MergeDir {
    match dir {
        SlideDir::Left | SlideDir::Up => MergeDir::Start,
        SlideDir::Right | SlideDir::Down => MergeDir::End,
    }
}

/// Line `q` of those along which a move toward `dir` runs: row `q` for a move to the
/// left or right, column `q` for a move up or down.
pub open spec fn line_of(size: nat, g: Seq<nat>, dir: SlideDir, q: int) -> Seq<nat> {
    match dir {
        SlideDir::Left | SlideDir::Right => row(size, g, q),
        SlideDir::Up | SlideDir::Down => column(size, g, q),
    }
}

/// The grid after every row slid toward `end`.
pub open spec fn rows_slid(size: nat, g: Seq<nat>, end: MergeDir) -> Seq<nat> {
    from_rows(size, |r: int| slid(row(size, g, r), end))
}

/// The grid after every column slid toward `end`.
pub open spec fn columns_slid(size: nat, g: Seq<nat>, end: MergeDir) -> Seq<nat> {
    from_columns(size, |c: int| slid(column(size, g, c), end))
}

/// The grid after the tiles moved toward `dir`, before any new tile appears: a move to
/// the left or right slides every row, a move up or down every column.
pub open spec fn moved(size: nat, g: Seq<nat>, dir: SlideDir) -> Seq<nat> {
    match dir {
        SlideDir::Left | SlideDir::Right => rows_slid(size, g, toward(dir)),
        SlideDir::Up | SlideDir::Down => columns_slid(size, g, toward(dir)),
    }
}

/// No move can change the grid: no cell is empty, and no two cells that are neighbours
/// in a row or in a column hold the same weight.
pub open spec fn terminal(size: nat, g: Seq<nat>) -> bool {
    &&& forall|k: int| 0 <= k < g.len() ==> #[trigger] g[k] != 0
    &&& forall|r: int, c: int|
        0 <= r < size && 0 <= c < size - 1 ==> g[#[trigger] at(size, r, c)] != g[at(
            size,
            r,
            c + 1,
        )]
    &&& forall|r: int, c: int|
        0 <= r < size - 1 && 0 <= c < size ==> g[#[trigger] at(size, r, c)] != g[at(
            size,
            r + 1,
            c,
        )]
}

/// The grid on which a game begins: empty but for two tiles of weight 2, at the places
/// `first` and `second`.
pub open spec fn opened(size: nat, first: int, second: int) -> Seq<nat> {
    Seq::new(size * size, |k: int| 0nat).update(first, 2).update(second, 2)
}

/// The number of tiles on the grid.
pub open spec fn tile_count(g: Seq<nat>) -> nat {
    g.filter(occupied()).len()
}

} // verus!
