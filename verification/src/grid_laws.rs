//! Laws of the grid: places, transposition, moves and the end of the game.

use crate::grid::{
    at, column, column_of, columns_slid, from_rows, is_grid, line_of, moved, row, row_of,
    rows_slid, terminal, tile_count, toward, transposed, SlideDir,
};
use crate::line::{all_weights, bounded, fits, is_weight, occupied, slid, MergeDir};
use crate::line_laws::{
    lemma_gapped_line_slides, lemma_full_line_stays, lemma_paired_line_slides, lemma_slid_bounded,
    lemma_slid_keeps_weights, lemma_slid_leaves_gap,
};
use vstd::arithmetic::div_mod::{lemma_fundamental_div_mod, lemma_fundamental_div_mod_converse};
use vstd::prelude::*;

verus! {

/// A cell's row and column give its place, and its place gives them back.
pub proof fn lemma_at(size: nat, r: int, c: int)
    requires
        0 <= r < size,
        0 <= c < size,
    ensures
        0 <= at(size, r, c) < size * size,
        row_of(size, at(size, r, c)) == r,
        column_of(size, at(size, r, c)) == c,
{
    assert(r * size + c < size * size) by (nonlinear_arith)
        requires
            0 <= r < size,
            0 <= c < size,
    ;
    assert(0 <= r * size) by (nonlinear_arith)
        requires
            0 <= r,
            0 <= size,
    ;
    lemma_fundamental_div_mod_converse(at(size, r, c), size as int, r, c);
}

/// Every place on the grid is that of a cell in one of its rows and columns.
pub proof fn lemma_coords(size: nat, k: int)
    requires
        0 <= k < size * size,
    ensures
        0 <= row_of(size, k) < size,
        0 <= column_of(size, k) < size,
        at(size, row_of(size, k), column_of(size, k)) == k,
{
    let d = size as int;
    assert(d > 0) by {
        if d == 0 {
            assert(d * d == 0);
        }
    }
    lemma_fundamental_div_mod(k, d);
    let q = k / d;
    let m = k % d;
    assert(0 <= m < d);
    assert(d * q == q * d) by (nonlinear_arith);
    assert(0 <= q < d) by (nonlinear_arith)
        requires
            0 <= k < d * d,
            k == q * d + m,
            0 <= m < d,
    ;
}

/// The cell in row `r` and column `c` of the transposed grid is the cell in row `c` and
/// column `r` of the grid.
pub proof fn lemma_transposed_cell(size: nat, g: Seq<nat>, r: int, c: int)
    requires
        0 <= r < size,
        0 <= c < size,
    ensures
        transposed(size, g)[at(size, r, c)] == g[at(size, c, r)],
{
    lemma_at(size, r, c);
}

/// The rows of the transposed grid are the columns of the grid.
pub proof fn lemma_transposed_row(size: nat, g: Seq<nat>, r: int)
    requires
        0 <= r < size,
    ensures
        row(size, transposed(size, g), r) == column(size, g, r),
{
    assert forall|c: int| 0 <= c < size implies row(size, transposed(size, g), r)[c] == column(
        size,
        g,
        r,
    )[c] by {
        lemma_transposed_cell(size, g, r, c);
    }
    assert(row(size, transposed(size, g), r) =~= column(size, g, r));
}

/// Transposing a grid twice gives the grid back.
pub proof fn lemma_transposed_twice(size: nat, g: Seq<nat>)
    requires
        is_grid(size, g),
    ensures
        transposed(size, transposed(size, g)) == g,
{
    let once = transposed(size, g);
    let twice = transposed(size, once);
    assert forall|k: int| 0 <= k < g.len() implies twice[k] == g[k] by {
        lemma_coords(size, k);
        let r = row_of(size, k);
        let c = column_of(size, k);
        lemma_transposed_cell(size, once, r, c);
        lemma_transposed_cell(size, g, c, r);
    }
    assert(twice =~= g);
}

/// Whether an in-place transposition that stands at row `row` and column `col` has
/// already swapped the cell in row `r` and column `c` with its mirror cell. The pairs
/// are taken by their smaller coordinate first, then by the larger one.
pub open spec fn swapped(r: int, c: int, row: int, col: int) -> bool {
    let low = if r <= c {
        r
    } else {
        c
    };
    let high = if r <= c {
        c
    } else {
        r
    };
    low < row || (low == row && high < col)
}

/// `now` is the grid `g` during its transposition in place, which stands at row `row`
/// and column `col`.
pub open spec fn transposing(size: nat, g: Seq<nat>, now: Seq<nat>, row: int, col: int) -> bool {
    &&& now.len() == g.len()
    &&& forall|r: int, c: int|
        0 <= r < size && 0 <= c < size ==> now[#[trigger] at(size, r, c)] == if swapped(
            r,
            c,
            row,
            col,
        ) {
            g[at(size, c, r)]
        } else {
            g[at(size, r, c)]
        }
}

/// Swapping the cell at which the transposition stands with its mirror cell moves the
/// transposition one column on.
pub proof fn lemma_transposing_step(size: nat, g: Seq<nat>, now: Seq<nat>, row: int, col: int)
    requires
        is_grid(size, g),
        transposing(size, g, now, row, col),
        0 <= row <= col < size,
    ensures
        transposing(
            size,
            g,
            now.update(at(size, row, col), now[at(size, col, row)]).update(
                at(size, col, row),
                now[at(size, row, col)],
            ),
            row,
            col + 1,
        ),
{
    let here = at(size, row, col);
    let there = at(size, col, row);
    let next = now.update(here, now[there]).update(there, now[here]);
    lemma_at(size, row, col);
    lemma_at(size, col, row);
    assert forall|r: int, c: int| 0 <= r < size && 0 <= c < size implies next[#[trigger] at(
        size,
        r,
        c,
    )] == if swapped(r, c, row, col + 1) {
        g[at(size, c, r)]
    } else {
        g[at(size, r, c)]
    } by {
        lemma_at(size, r, c);
        lemma_at(size, c, r);
    }
}

/// A transposition in place that has gone through every row has transposed the grid.
pub proof fn lemma_transposing_ends(size: nat, g: Seq<nat>, now: Seq<nat>)
    requires
        is_grid(size, g),
        transposing(size, g, now, size as int, size as int),
    ensures
        now == transposed(size, g),
{
    assert forall|k: int| 0 <= k < g.len() implies now[k] == transposed(size, g)[k] by {
        lemma_coords(size, k);
        let r = row_of(size, k);
        let c = column_of(size, k);
        lemma_transposed_cell(size, g, r, c);
        assert(now[at(size, r, c)] == g[at(size, c, r)]);
    }
    assert(now =~= transposed(size, g));
}

/// The grid laid so that a move toward `dir` runs along its rows: as it is for a move
/// to the left or right, transposed for a move up or down.
pub open spec fn laid(size: nat, g: Seq<nat>, dir: SlideDir) -> Seq<nat> {
    match dir {
        SlideDir::Left | SlideDir::Right => g,
        SlideDir::Up | SlideDir::Down => transposed(size, g),
    }
}

/// The lines along which a move runs are the rows of the grid laid for it.
pub proof fn lemma_line_of(size: nat, g: Seq<nat>, dir: SlideDir, q: int)
    requires
        0 <= q < size,
    ensures
        line_of(size, g, dir, q) == row(size, laid(size, g, dir), q),
{
    match dir {
        SlideDir::Left | SlideDir::Right => {},
        SlideDir::Up | SlideDir::Down => {
            lemma_transposed_row(size, g, q);
        },
    }
}

/// Sliding the columns of a grid is sliding the rows of the transposed grid and
/// transposing back.
pub proof fn lemma_columns_by_rows(size: nat, g: Seq<nat>, end: MergeDir)
    ensures
        columns_slid(size, g, end) == transposed(size, rows_slid(size, transposed(size, g), end)),
{
    let turned = transposed(size, g);
    let slid_rows = rows_slid(size, turned, end);
    let back = transposed(size, slid_rows);
    assert forall|k: int| 0 <= k < size * size implies columns_slid(size, g, end)[k] == back[k] by {
        lemma_coords(size, k);
        let r = row_of(size, k);
        let c = column_of(size, k);
        lemma_transposed_cell(size, slid_rows, r, c);
        lemma_at(size, c, r);
        lemma_transposed_row(size, g, c);
    }
    assert(columns_slid(size, g, end) =~= back);
}

/// A move is a slide of the rows of the grid laid for it, laid back.
pub proof fn lemma_moved_by_rows(size: nat, g: Seq<nat>, dir: SlideDir)
    requires
        is_grid(size, g),
    ensures
        moved(size, g, dir) == laid(size, rows_slid(size, laid(size, g, dir), toward(dir)), dir),
        moved(size, g, dir) != g <==> rows_slid(size, laid(size, g, dir), toward(dir)) != laid(
            size,
            g,
            dir,
        ),
{
    match dir {
        SlideDir::Left | SlideDir::Right => {},
        SlideDir::Up | SlideDir::Down => {
            let end = toward(dir);
            let turned = transposed(size, g);
            lemma_columns_by_rows(size, g, end);
            lemma_transposed_twice(size, g);
            lemma_transposed_twice(size, rows_slid(size, turned, end));
        },
    }
}

/// The grid after its first `done` rows slid toward `end`.
pub open spec fn rows_slid_before(size: nat, g: Seq<nat>, end: MergeDir, done: int) -> Seq<nat> {
    from_rows(
        size,
        |r: int|
            if r < done {
                slid(row(size, g, r), end)
            } else {
                row(size, g, r)
            },
    )
}

/// The grid `g` with `line` in place of its row `r`.
pub open spec fn with_row(size: nat, g: Seq<nat>, r: int, line: Seq<nat>) -> Seq<nat> {
    Seq::new(
        g.len(),
        |k: int|
            if row_of(size, k) == r {
                line[column_of(size, k)]
            } else {
                g[k]
            },
    )
}

/// Before any row has slid the grid is as it was, and when all have, the rows have slid.
pub proof fn lemma_rows_slid_bounds(size: nat, g: Seq<nat>, end: MergeDir)
    requires
        is_grid(size, g),
    ensures
        rows_slid_before(size, g, end, 0) == g,
        rows_slid_before(size, g, end, size as int) == rows_slid(size, g, end),
{
    assert forall|k: int| 0 <= k < g.len() implies rows_slid_before(size, g, end, 0)[k] == g[k] by {
        lemma_coords(size, k);
    }
    assert forall|k: int| 0 <= k < g.len() implies rows_slid_before(size, g, end, size as int)[k]
        == rows_slid(size, g, end)[k] by {
        lemma_coords(size, k);
    }
    assert(rows_slid_before(size, g, end, 0) =~= g);
    assert(rows_slid_before(size, g, end, size as int) =~= rows_slid(size, g, end));
}

/// Sliding row `r` when the rows before it have slid: the row is still as it was in
/// `g`; putting the slid row in its place gives the grid with one more row slid; and
/// the grid differs from `g` from then on exactly if the slide changed the row or an
/// earlier slide changed the grid.
pub proof fn lemma_rows_slid_next(size: nat, g: Seq<nat>, end: MergeDir, r: int)
    requires
        is_grid(size, g),
        0 <= r < size,
    ensures
        row(size, rows_slid_before(size, g, end, r), r) == row(size, g, r),
        rows_slid_before(size, g, end, r + 1) == with_row(
            size,
            rows_slid_before(size, g, end, r),
            r,
            slid(row(size, g, r), end),
        ),
        slid(row(size, g, r), end) == row(size, g, r) ==> rows_slid_before(size, g, end, r + 1)
            == rows_slid_before(size, g, end, r),
        slid(row(size, g, r), end) != row(size, g, r) ==> rows_slid_before(size, g, end, r + 1)
            != g,
{
    let before = rows_slid_before(size, g, end, r);
    let after = rows_slid_before(size, g, end, r + 1);
    let line = row(size, g, r);
    assert forall|c: int| 0 <= c < size implies row(size, before, r)[c] == line[c] by {
        lemma_at(size, r, c);
    }
    assert(row(size, before, r) =~= line);
    assert forall|k: int| 0 <= k < g.len() implies after[k] == with_row(
        size,
        before,
        r,
        slid(line, end),
    )[k] by {
        lemma_coords(size, k);
    }
    assert(after =~= with_row(size, before, r, slid(line, end)));
    if slid(line, end) == line {
        assert forall|k: int| 0 <= k < g.len() implies after[k] == before[k] by {
            lemma_coords(size, k);
        }
        assert(after =~= before);
    } else {
        if after == g {
            assert forall|c: int| 0 <= c < size implies slid(line, end)[c] == line[c] by {
                lemma_at(size, r, c);
            }
            assert(slid(line, end) =~= line);
        }
    }
}

/// Sliding the rows leaves a grid as it is exactly when it leaves every row as it is.
pub proof fn lemma_rows_slid_fixed(size: nat, g: Seq<nat>, end: MergeDir)
    requires
        is_grid(size, g),
    ensures
        rows_slid(size, g, end) == g <==> forall|r: int|
            0 <= r < size ==> slid(#[trigger] row(size, g, r), end) == row(size, g, r),
{
    let after = rows_slid(size, g, end);
    if after == g {
        assert forall|r: int| 0 <= r < size implies slid(#[trigger] row(size, g, r), end) == row(
            size,
            g,
            r,
        ) by {
            let line = row(size, g, r);
            assert forall|c: int| 0 <= c < size implies slid(line, end)[c] == line[c] by {
                lemma_at(size, r, c);
            }
            assert(slid(line, end) =~= line);
        }
    }
    if forall|r: int| 0 <= r < size ==> slid(#[trigger] row(size, g, r), end) == row(size, g, r) {
        assert forall|k: int| 0 <= k < g.len() implies after[k] == g[k] by {
            lemma_coords(size, k);
            let r = row_of(size, k);
            assert(slid(row(size, g, r), end) == row(size, g, r));
        }
        assert(after =~= g);
    }
}

/// Sliding the rows, where it changes the grid, leaves at least one cell empty.
pub proof fn lemma_rows_slid_gap(size: nat, g: Seq<nat>, end: MergeDir)
    requires
        is_grid(size, g),
        rows_slid(size, g, end) != g,
    ensures
        exists|k: int| 0 <= k < g.len() && rows_slid(size, g, end)[k] == 0,
{
    lemma_rows_slid_fixed(size, g, end);
    let r = choose|r: int|
        0 <= r < size && slid(#[trigger] row(size, g, r), end) != row(size, g, r);
    let line = row(size, g, r);
    lemma_slid_leaves_gap(line, end);
    let c = choose|c: int| 0 <= c < line.len() && slid(line, end)[c] == 0;
    lemma_at(size, r, c);
    assert(rows_slid(size, g, end)[at(size, r, c)] == 0);
}

/// A move changes the grid exactly when the slide changes one of the lines that the
/// move runs along.
pub proof fn lemma_moved_changes_a_line(size: nat, g: Seq<nat>, dir: SlideDir)
    requires
        is_grid(size, g),
    ensures
        moved(size, g, dir) != g <==> exists|q: int|
            0 <= q < size && slid(#[trigger] line_of(size, g, dir, q), toward(dir)) != line_of(
                size,
                g,
                dir,
                q,
            ),
{
    let end = toward(dir);
    let flat = laid(size, g, dir);
    lemma_moved_by_rows(size, g, dir);
    lemma_rows_slid_fixed(size, flat, end);
    assert forall|q: int| 0 <= q < size implies #[trigger] line_of(size, g, dir, q) == row(
        size,
        flat,
        q,
    ) by {
        lemma_line_of(size, g, dir, q);
    }
    if moved(size, g, dir) != g {
        let q = choose|q: int|
            0 <= q < size && slid(#[trigger] row(size, flat, q), end) != row(size, flat, q);
        assert(line_of(size, g, dir, q) == row(size, flat, q));
    }
    if exists|q: int|
        0 <= q < size && slid(#[trigger] line_of(size, g, dir, q), end) != line_of(
            size,
            g,
            dir,
            q,
        ) {
        let q = choose|q: int|
            0 <= q < size && slid(#[trigger] line_of(size, g, dir, q), end) != line_of(
                size,
                g,
                dir,
                q,
            );
        assert(line_of(size, g, dir, q) == row(size, flat, q));
    }
}

/// A move that changes the grid leaves at least one cell empty.
pub proof fn lemma_moved_leaves_gap(size: nat, g: Seq<nat>, dir: SlideDir)
    requires
        is_grid(size, g),
        moved(size, g, dir) != g,
    ensures
        exists|k: int| 0 <= k < g.len() && moved(size, g, dir)[k] == 0,
{
    let end = toward(dir);
    match dir {
        SlideDir::Left | SlideDir::Right => {
            lemma_rows_slid_gap(size, g, end);
        },
        SlideDir::Up | SlideDir::Down => {
            let turned = transposed(size, g);
            let slid_rows = rows_slid(size, turned, end);
            lemma_columns_by_rows(size, g, end);
            lemma_transposed_twice(size, g);
            lemma_rows_slid_gap(size, turned, end);
            let k = choose|k: int| 0 <= k < turned.len() && slid_rows[k] == 0;
            lemma_coords(size, k);
            let r = row_of(size, k);
            let c = column_of(size, k);
            lemma_transposed_cell(size, slid_rows, c, r);
            lemma_at(size, c, r);
            assert(moved(size, g, dir)[at(size, c, r)] == 0);
        },
    }
}

/// Where the moved grid fits, so does every slid row of the grid laid for the move.
pub proof fn lemma_moved_rows_fit(size: nat, g: Seq<nat>, dir: SlideDir, r: int)
    requires
        is_grid(size, g),
        fits(moved(size, g, dir)),
        0 <= r < size,
    ensures
        fits(slid(row(size, laid(size, g, dir), r), toward(dir))),
{
    let end = toward(dir);
    let flat = laid(size, g, dir);
    let slid_rows = rows_slid(size, flat, end);
    let line = slid(row(size, flat, r), end);
    lemma_moved_by_rows(size, g, dir);
    assert forall|c: int| 0 <= c < line.len() implies #[trigger] line[c] <= u32::MAX by {
        lemma_at(size, r, c);
        lemma_at(size, c, r);
        assert(slid_rows[at(size, r, c)] == line[c]);
        match dir {
            SlideDir::Left | SlideDir::Right => {
                assert(moved(size, g, dir)[at(size, r, c)] <= u32::MAX);
            },
            SlideDir::Up | SlideDir::Down => {
                lemma_transposed_cell(size, slid_rows, c, r);
                assert(moved(size, g, dir)[at(size, c, r)] <= u32::MAX);
            },
        }
    }
}

/// The moved grid fits exactly when every slid row of the grid laid for the move fits.
pub proof fn lemma_moved_fits_by_rows(size: nat, g: Seq<nat>, dir: SlideDir)
    requires
        is_grid(size, g),
    ensures
        fits(moved(size, g, dir)) <==> forall|r: int|
            0 <= r < size ==> fits(slid(#[trigger] row(size, laid(size, g, dir), r), toward(dir))),
{
    let end = toward(dir);
    let flat = laid(size, g, dir);
    let slid_rows = rows_slid(size, flat, end);
    let after = moved(size, g, dir);
    lemma_moved_by_rows(size, g, dir);
    if fits(after) {
        assert forall|r: int| 0 <= r < size implies fits(
            slid(#[trigger] row(size, flat, r), end),
        ) by {
            lemma_moved_rows_fit(size, g, dir, r);
        }
    }
    if forall|r: int| 0 <= r < size ==> fits(slid(#[trigger] row(size, flat, r), end)) {
        assert forall|k: int| 0 <= k < after.len() implies #[trigger] after[k] <= u32::MAX by {
            lemma_coords(size, k);
            let r = row_of(size, k);
            let c = column_of(size, k);
            match dir {
                SlideDir::Left | SlideDir::Right => {
                    assert(fits(slid(row(size, flat, r), end)));
                    assert(after[k] == slid(row(size, flat, r), end)[c]);
                },
                SlideDir::Up | SlideDir::Down => {
                    lemma_transposed_cell(size, slid_rows, r, c);
                    lemma_at(size, c, r);
                    assert(fits(slid(row(size, flat, c), end)));
                    assert(after[k] == slid(row(size, flat, c), end)[r]);
                },
            }
        }
    }
}

/// Every cell of `line` holds what some cell of `g` holds.
pub open spec fn drawn_from(g: Seq<nat>, line: Seq<nat>) -> bool {
    forall|j: int| 0 <= j < line.len() ==> g.contains(#[trigger] line[j])
}

/// The line of the grid along which a move toward `dir` takes the cell at place `k`.
pub open spec fn line_through(size: nat, g: Seq<nat>, dir: SlideDir, k: int) -> Seq<nat> {
    match dir {
        SlideDir::Left | SlideDir::Right => row(size, g, row_of(size, k)),
        SlideDir::Up | SlideDir::Down => column(size, g, column_of(size, k)),
    }
}

/// Every cell of a moved grid is a cell of the slid line through it, and that line is
/// made of cells of the grid.
pub proof fn lemma_moved_cell(size: nat, g: Seq<nat>, dir: SlideDir, k: int)
    requires
        is_grid(size, g),
        0 <= k < g.len(),
    ensures
        drawn_from(g, line_through(size, g, dir, k)),
        slid(line_through(size, g, dir, k), toward(dir)).contains(moved(size, g, dir)[k]),
{
    lemma_coords(size, k);
    let r = row_of(size, k);
    let c = column_of(size, k);
    let line = line_through(size, g, dir, k);
    let after = slid(line, toward(dir));
    match dir {
        SlideDir::Left | SlideDir::Right => {
            assert forall|j: int| 0 <= j < line.len() implies g.contains(#[trigger] line[j]) by {
                lemma_at(size, r, j);
                assert(g[at(size, r, j)] == line[j]);
            }
            assert(after[c] == moved(size, g, dir)[k]);
        },
        SlideDir::Up | SlideDir::Down => {
            assert forall|j: int| 0 <= j < line.len() implies g.contains(#[trigger] line[j]) by {
                lemma_at(size, j, c);
                assert(g[at(size, j, c)] == line[j]);
            }
            assert(after[r] == moved(size, g, dir)[k]);
        },
    }
}

/// A move keeps the tiles powers of two.
pub proof fn lemma_moved_keeps_weights(size: nat, g: Seq<nat>, dir: SlideDir)
    requires
        is_grid(size, g),
        all_weights(g),
    ensures
        all_weights(moved(size, g, dir)),
{
    let after = moved(size, g, dir);
    assert forall|k: int| 0 <= k < after.len() implies is_weight(#[trigger] after[k]) by {
        let line = line_through(size, g, dir, k);
        lemma_moved_cell(size, g, dir, k);
        assert forall|j: int| 0 <= j < line.len() implies is_weight(#[trigger] line[j]) by {
            assert(g.contains(line[j]));
        }
        lemma_slid_keeps_weights(line, toward(dir));
    }
}

/// A move at most doubles the largest tile: where no tile is above half of what a cell
/// can hold, the moved grid fits.
pub proof fn lemma_moved_bounded(size: nat, g: Seq<nat>, dir: SlideDir, bound: nat)
    requires
        is_grid(size, g),
        bounded(g, bound),
    ensures
        bounded(moved(size, g, dir), 2 * bound),
        2 * bound <= u32::MAX ==> fits(moved(size, g, dir)),
{
    let after = moved(size, g, dir);
    assert forall|k: int| 0 <= k < after.len() implies #[trigger] after[k] <= 2 * bound by {
        let line = line_through(size, g, dir, k);
        lemma_moved_cell(size, g, dir, k);
        assert forall|j: int| 0 <= j < line.len() implies #[trigger] line[j] <= bound by {
            assert(g.contains(line[j]));
        }
        lemma_slid_bounded(line, toward(dir), bound);
    }
}

/// A tile that appears in an empty cell is one tile more.
pub proof fn lemma_tile_count_spawn(g: Seq<nat>, k: int, v: nat)
    requires
        0 <= k < g.len(),
        g[k] == 0,
        v != 0,
    ensures
        tile_count(g.update(k, v)) == tile_count(g) + 1,
{
    let front = g.take(k);
    let back = g.skip(k + 1);
    let none = Seq::<nat>::empty();
    assert(g =~= front + (seq![0nat] + back));
    assert(g.update(k, v) =~= front + (seq![v] + back));
    back.lemma_filter_prepend(0nat, occupied());
    back.lemma_filter_prepend(v, occupied());
    Seq::filter_distributes_over_add(front, seq![0nat] + back, occupied());
    Seq::filter_distributes_over_add(front, seq![v] + back, occupied());
}

/// On a terminal grid no move changes anything.
pub proof fn lemma_terminal_blocks(size: nat, g: Seq<nat>, dir: SlideDir)
    requires
        is_grid(size, g),
        terminal(size, g),
    ensures
        moved(size, g, dir) == g,
{
    lemma_moved_changes_a_line(size, g, dir);
    assert forall|q: int| 0 <= q < size implies slid(
        #[trigger] line_of(size, g, dir, q),
        toward(dir),
    ) == line_of(size, g, dir, q) by {
        let line = line_of(size, g, dir, q);
        assert forall|i: int| 0 <= i < line.len() implies #[trigger] line[i] != 0 by {
            lemma_at(size, q, i);
            lemma_at(size, i, q);
        }
        assert forall|i: int| 0 < i < line.len() implies line[i - 1] != #[trigger] line[i] by {
            lemma_at(size, q, i - 1);
            lemma_at(size, i - 1, q);
            match dir {
                SlideDir::Left | SlideDir::Right => {
                    assert(g[at(size, q, i - 1)] != g[at(size, q, i - 1 + 1)]);
                },
                SlideDir::Up | SlideDir::Down => {
                    assert(g[at(size, i - 1, q)] != g[at(size, i - 1 + 1, q)]);
                },
            }
        }
        lemma_full_line_stays(line, toward(dir));
    }
}

/// On a grid that holds a tile and is not terminal, some move changes something.
pub proof fn lemma_open_grid_moves(size: nat, g: Seq<nat>) -> (dir: SlideDir)
    requires
        is_grid(size, g),
        !terminal(size, g),
        exists|k: int| 0 <= k < g.len() && g[k] != 0,
    ensures
        moved(size, g, dir) != g,
{
    let tile = choose|k: int| 0 <= k < g.len() && g[k] != 0;
    if exists|k: int| 0 <= k < g.len() && g[k] == 0 {
        let gap = choose|k: int| 0 <= k < g.len() && g[k] == 0;
        lemma_coords(size, tile);
        lemma_coords(size, gap);
        let r = row_of(size, tile);
        let c = column_of(size, tile);
        let across = row(size, g, r);
        if exists|j: int| 0 <= j < size && across[j] == 0 {
            let j = choose|j: int| 0 <= j < size && across[j] == 0;
            lemma_gapped_line_slides(across, c, j);
            let dir = if j < c {
                SlideDir::Left
            } else {
                SlideDir::Right
            };
            lemma_moved_changes_a_line(size, g, dir);
            assert(line_of(size, g, dir, r) == across);
            dir
        } else {
            let rr = row_of(size, gap);
            let cc = column_of(size, gap);
            let down = column(size, g, cc);
            assert(across[cc] != 0);
            assert(down[r] == across[cc]);
            assert(down[rr] == 0);
            lemma_gapped_line_slides(down, r, rr);
            let dir = if rr < r {
                SlideDir::Up
            } else {
                SlideDir::Down
            };
            lemma_moved_changes_a_line(size, g, dir);
            assert(line_of(size, g, dir, cc) == down);
            dir
        }
    } else if exists|r: int, c: int|
        0 <= r < size && 0 <= c < size - 1 && g[#[trigger] at(size, r, c)] == g[at(
            size,
            r,
            c + 1,
        )] {
        let (r, c) = choose|r: int, c: int|
            0 <= r < size && 0 <= c < size - 1 && g[#[trigger] at(size, r, c)] == g[at(
                size,
                r,
                c + 1,
            )];
        let across = row(size, g, r);
        lemma_at(size, r, c + 1);
        lemma_paired_line_slides(across, c + 1, MergeDir::Start);
        lemma_moved_changes_a_line(size, g, SlideDir::Left);
        assert(line_of(size, g, SlideDir::Left, r) == across);
        SlideDir::Left
    } else {
        let (r, c) = choose|r: int, c: int|
            0 <= r < size - 1 && 0 <= c < size && g[#[trigger] at(size, r, c)] == g[at(
                size,
                r + 1,
                c,
            )];
        let down = column(size, g, c);
        lemma_at(size, r + 1, c);
        lemma_paired_line_slides(down, r + 1, MergeDir::Start);
        lemma_moved_changes_a_line(size, g, SlideDir::Up);
        assert(line_of(size, g, SlideDir::Up, c) == down);
        SlideDir::Up
    }
}

/// A grid that holds a tile is terminal exactly when no move changes it.
pub proof fn lemma_terminal_means_blocked(size: nat, g: Seq<nat>)
    requires
        is_grid(size, g),
        exists|k: int| 0 <= k < g.len() && g[k] != 0,
    ensures
        terminal(size, g) <==> forall|dir: SlideDir| #[trigger] moved(size, g, dir) == g,
{
    if terminal(size, g) {
        assert forall|dir: SlideDir| #[trigger] moved(size, g, dir) == g by {
            lemma_terminal_blocks(size, g, dir);
        }
    } else {
        let dir = lemma_open_grid_moves(size, g);
        assert(moved(size, g, dir) != g);
    }
}

} // verus!
