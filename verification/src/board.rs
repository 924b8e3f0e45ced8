//! The board: the grid of a game, the moves on it, the tiles that appear, and the end.

use crate::grid::{
    at, column, column_of, is_grid, moved, opened, row, row_of, terminal, tile_count, toward,
    transposed, SlideDir,
};
use crate::grid_laws::{
    laid, lemma_at, lemma_coords, lemma_moved_by_rows, lemma_moved_fits_by_rows,
    lemma_moved_keeps_weights, lemma_moved_leaves_gap, lemma_moved_rows_fit,
    lemma_rows_slid_bounds, lemma_rows_slid_next, lemma_tile_count_spawn, lemma_transposed_row,
    lemma_transposing_ends, lemma_transposing_step, rows_slid_before, swapped, transposing,
    with_row,
};
use crate::line::{all_weights, can_slide, fits, is_weight, slid, weights, MergeDir};
use crate::random::{choose_index, shuffle_indices};
use vstd::arithmetic::power2::{lemma2_to64, pow2};
use vstd::prelude::*;
use vstd::seq_lib::{to_multiset_contains, to_multiset_len};

verus! {

/// The side of the board that `Board::new_with_nums` builds.
pub const BOARD_SIZE: usize = 4;

/// The number of cells of the board that `Board::new_with_nums` builds.
pub const BOARD_CELLS: usize = 16;

/// Why a board could not be made.
#[derive(Debug, Clone, Copy, PartialEq, Eq, Structural)]
pub enum BoardError {
    /// The side is less than 2: no game can be played on such a board.
    TooSmall,
    /// The number of cells is not the square of the side.
    WrongLength,
}

/// A square grid of cells in row-major order. A cell holds 0 when it is empty, and the
/// weight of its tile otherwise.
#[derive(Debug)]
pub struct Board {
    size: usize,
    cells: Vec<u32>,
}

impl View for Board {
    type V = Seq<nat>;

    /// The cells in row-major order, as natural numbers.
    closed spec fn view(&self) -> Seq<nat> {
        weights(self.cells@)
    }
}

impl Board {
    /// The number of rows, which is the number of columns.
    pub closed spec fn side(&self) -> nat {
        self.size as nat
    }

    /// What holds of every board at all times: it has at least two rows, and as many cells
    /// as its side asks for.
    #[verifier::type_invariant]
    spec fn well_formed(self) -> bool {
        &&& self.size >= 2
        &&& self.cells@.len() == self.size * self.size
    }

    /// The board has at least two rows, and as many cells as its side asks for. Every
    /// board that a function of this type hands out or is handed is such a board; the
    /// functions say so, for the callers that reason about the cells.
    pub open spec fn wf(&self) -> bool {
        &&& self.side() >= 2
        &&& is_grid(self.side(), self@)
    }

    /// The cells after the tiles moved toward `dir`, before a new tile appears.
    pub open spec fn moved(&self, dir: SlideDir) -> Seq<nat> {
        moved(self.side(), self@, dir)
    }

    /// Makes the board of the given side from its cells in row-major order.
    pub fn with_cells(size: usize, cells: Vec<u32>) -> (made: Result<Board, BoardError>)
        ensures
            match made {
                Ok(board) => {
                    &&& size >= 2
                    &&& cells@.len() == size * size
                    &&& board.wf()
                    &&& board.side() == size
                    &&& board@ == weights(cells@)
                },
                Err(BoardError::TooSmall) => size < 2,
                Err(BoardError::WrongLength) => size >= 2 && cells@.len() != size * size,
            },
    {
        if size < 2 {
            return Err(BoardError::TooSmall);
        }
        let len: usize = cells.len();
        match size.checked_mul(size) {
            Some(total) => {
                if len == total {
                    Ok(Board { size, cells })
                } else {
                    Err(BoardError::WrongLength)
                }
            },
            None => Err(BoardError::WrongLength),
        }
    }

    /// Makes the board of side 4 that holds the given cells, in row-major order.
    pub fn new_with_nums(nums: [u32; BOARD_CELLS]) -> (board: Board)
        ensures
            board.wf(),
            board.side() == BOARD_SIZE,
            board@ == weights(nums@),
    {
        let mut cells: Vec<u32> = Vec::new();
        let mut k: usize = 0;
        while k < BOARD_CELLS
            invariant
                k <= BOARD_CELLS,
                cells@ == nums@.take(k as int),
            decreases BOARD_CELLS - k,
        {
            cells.push(nums[k]);
            assert(cells@ =~= nums@.take(k + 1));
            k += 1;
        }
        assert(cells@ =~= nums@);
        Board { size: BOARD_SIZE, cells }
    }

    /// Makes the board of the given side that is empty but for two tiles of weight 2, in
    /// the cells at `first` and `second`.
    pub fn opening(size: usize, first: usize, second: usize) -> (board: Board)
        requires
            size >= 2,
            size * size <= usize::MAX,
            first < size * size,
            second < size * size,
            first != second,
        ensures
            board.wf(),
            board.side() == size,
            board@ == opened(size as nat, first as int, second as int),
    {
        let total: usize = size * size;
        let mut cells: Vec<u32> = Vec::new();
        let mut k: usize = 0;
        while k < total
            invariant
                k <= total,
                cells@.len() == k,
                forall|j: int| 0 <= j < k ==> cells@[j] == 0,
            decreases total - k,
        {
            cells.push(0);
            k += 1;
        }
        cells[first] = 2;
        cells[second] = 2;
        let board = Board { size, cells };
        assert(board@ =~= opened(size as nat, first as int, second as int));
        board
    }

    /// Makes the board on which a game of the given side begins: empty but for two tiles
    /// of weight 2 in two cells picked at random. A side below 2 is refused.
    pub fn new(size: usize) -> (made: Result<Board, BoardError>)
        requires
            size * size <= usize::MAX,
        ensures
            size < 2 <==> made == Err::<Board, BoardError>(BoardError::TooSmall),
            size >= 2 <==> made is Ok,
            made matches Ok(board) ==> {
                &&& board.wf()
                &&& board.side() == size
                &&& all_weights(board@)
                &&& tile_count(board@) == 2
                &&& exists|first: int, second: int|
                    0 <= first < size * size && 0 <= second < size * size && first != second
                        && board@ == #[trigger] opened(size as nat, first, second)
            },
    {
        if size < 2 {
            return Err(BoardError::TooSmall);
        }
        let total: usize = size * size;
        assert(total >= 4) by (nonlinear_arith)
            requires
                size >= 2,
                total == size * size,
        ;
        let mut indices: Vec<usize> = Vec::new();
        let mut k: usize = 0;
        while k < total
            invariant
                k <= total,
                indices@.len() == k,
                forall|j: int| 0 <= j < k ==> indices@[j] == j,
            decreases total - k,
        {
            indices.push(k);
            k += 1;
        }
        let ghost ordered = indices@;
        let mut rng = rand::rng();
        shuffle_indices(&mut indices, &mut rng);
        proof {
            assert(ordered.no_duplicates());
            ordered.lemma_multiset_has_no_duplicates();
            indices@.lemma_multiset_has_no_duplicates_conv();
            to_multiset_len(ordered);
            to_multiset_len(indices@);
            assert forall|j: int| 0 <= j < total implies (#[trigger] indices@[j]) < total by {
                let place = indices@[j];
                assert(indices@.contains(place));
                to_multiset_contains(indices@, place);
                to_multiset_contains(ordered, place);
                let i = choose|i: int| 0 <= i < ordered.len() && ordered[i] == place;
            }
        }
        let first: usize = indices[0];
        let second: usize = indices[1];
        let board = Board::opening(size, first, second);
        proof {
            let none = Seq::new(total as nat, |k: int| 0nat);
            lemma_tile_count_spawn(none.update(first as int, 2), second as int, 2);
            lemma_tile_count_spawn(none, first as int, 2);
            none.lemma_all_neg_filter_empty(crate::line::occupied());
            lemma2_to64();
            assert(is_weight(2)) by {
                assert(2 == pow2(1));
            }
        }
        Ok(board)
    }

    /// The side of the board.
    pub fn size(&self) -> (size: usize)
        ensures
            self.wf(),
            size == self.side(),
    {
        proof {
            use_type_invariant(self);
        }
        self.size
    }

    /// The cells of the board in row-major order.
    pub fn cells(&self) -> (cells: &[u32])
        ensures
            self.wf(),
            weights(cells@) == self@,
    {
        proof {
            use_type_invariant(self);
        }
        self.cells.as_slice()
    }

    /// Tells whether the game is over: whether no cell is empty and no two neighbours in
    /// a row or a column are equal, so that no move could change the board.
    pub fn is_end(&self) -> (end: bool)
        ensures
            self.wf(),
            end == terminal(self.side(), self@),
            (exists|k: int| 0 <= k < self@.len() && self@[k] == 0) ==> !end,
    {
        proof {
            use_type_invariant(self);
        }
        let n: usize = self.size;
        let total: usize = self.cells.len();
        let ghost g = self@;
        let mut k: usize = 0;
        while k < total
            invariant
                k <= total,
                total == self.cells@.len(),
                g == weights(self.cells@),
                self.wf(),
                forall|j: int| 0 <= j < k ==> #[trigger] g[j] != 0,
            decreases total - k,
        {
            if self.cells[k] == 0 {
                assert(g[k as int] == 0);
                return false;
            }
            k += 1;
        }
        let mut a: usize = 0;
        while a < n
            invariant
                a <= n,
                n >= 2,
                n == self.side(),
                g == weights(self.cells@),
                g.len() == n * n,
                total == n * n,
                forall|j: int| 0 <= j < g.len() ==> #[trigger] g[j] != 0,
                forall|r: int, c: int|
                    0 <= r < a && 0 <= c < n - 1 ==> g[#[trigger] at(n as nat, r, c)] != g[at(
                        n as nat,
                        r,
                        c + 1,
                    )],
                forall|r: int, c: int|
                    0 <= r < n - 1 && 0 <= c < a ==> g[#[trigger] at(n as nat, r, c)] != g[at(
                        n as nat,
                        r + 1,
                        c,
                    )],
            decreases n - a,
        {
            let mut b: usize = 0;
            while b < n - 1
                invariant
                    a < n,
                    b <= n - 1,
                    n >= 2,
                    n == self.side(),
                    g == weights(self.cells@),
                    g.len() == n * n,
                    total == n * n,
                    forall|j: int| 0 <= j < g.len() ==> #[trigger] g[j] != 0,
                    forall|r: int, c: int|
                        0 <= r < a && 0 <= c < n - 1 ==> g[#[trigger] at(n as nat, r, c)] != g[at(
                            n as nat,
                            r,
                            c + 1,
                        )],
                    forall|r: int, c: int|
                        0 <= r < n - 1 && 0 <= c < a ==> g[#[trigger] at(n as nat, r, c)] != g[at(
                            n as nat,
                            r + 1,
                            c,
                        )],
                    forall|c: int|
                        0 <= c < b ==> g[#[trigger] at(n as nat, a as int, c)] != g[at(
                            n as nat,
                            a as int,
                            c + 1,
                        )],
                    forall|r: int|
                        0 <= r < b ==> g[#[trigger] at(n as nat, r, a as int)] != g[at(
                            n as nat,
                            r + 1,
                            a as int,
                        )],
                decreases n - 1 - b,
            {
                proof {
                    lemma_at(n as nat, a as int, b as int);
                    lemma_at(n as nat, a as int, b + 1);
                    lemma_at(n as nat, b as int, a as int);
                    lemma_at(n as nat, b + 1, a as int);
                }
                if self.cells[a * n + b] == self.cells[a * n + b + 1] {
                    assert(g[at(n as nat, a as int, b as int)] == g[at(n as nat, a as int, b + 1)]);
                    return false;
                }
                if self.cells[b * n + a] == self.cells[(b + 1) * n + a] {
                    assert(g[at(n as nat, b as int, a as int)] == g[at(n as nat, b + 1, a as int)]);
                    return false;
                }
                b += 1;
            }
            a += 1;
        }
        true
    }

    /// Mirrors the board at its main diagonal, in place: the cell in row `r` and column
    /// `c` changes places with the cell in row `c` and column `r`.
    pub fn transpose(&mut self)
        ensures
            final(self).wf(),
            final(self).side() == old(self).side(),
            final(self)@ == transposed(old(self).side(), old(self)@),
    {
        proof {
            use_type_invariant(&*self);
        }
        let n: usize = self.size;
        let total: usize = self.cells.len();
        let ghost g = self@;
        let mut row: usize = 0;
        while row < n
            invariant
                row <= n,
                n == self.size,
                n == old(self).size,
                total == n * n,
                is_grid(n as nat, g),
                transposing(n as nat, g, self@, row as int, row as int),
            decreases n - row,
        {
            let mut col: usize = row;
            while col < n
                invariant
                    row < n,
                    row <= col <= n,
                    n == self.size,
                    n == old(self).size,
                    total == n * n,
                    is_grid(n as nat, g),
                    transposing(n as nat, g, self@, row as int, col as int),
                decreases n - col,
            {
                proof {
                    lemma_at(n as nat, row as int, col as int);
                    lemma_at(n as nat, col as int, row as int);
                    lemma_transposing_step(n as nat, g, self@, row as int, col as int);
                }
                let ghost now = self@;
                if row != col {
                    let a: u32 = self.cells[row * n + col];
                    let b: u32 = self.cells[col * n + row];
                    self.cells[row * n + col] = b;
                    self.cells[col * n + row] = a;
                }
                assert(self@ =~= now.update(
                    at(n as nat, row as int, col as int),
                    now[at(n as nat, col as int, row as int)],
                ).update(
                    at(n as nat, col as int, row as int),
                    now[at(n as nat, row as int, col as int)],
                ));
                col += 1;
            }
            assert(transposing(n as nat, g, self@, row + 1, row + 1)) by {
                assert forall|r: int, c: int| 0 <= r < n && 0 <= c < n implies swapped(
                    r,
                    c,
                    row as int,
                    n as int,
                ) == swapped(r, c, row + 1, row + 1) by {}
            }
            row += 1;
        }
        proof {
            lemma_transposing_ends(n as nat, g, self@);
        }
    }

    /// The cells of row `r`, from left to right.
    fn row_cells(&self, r: usize) -> (line: Vec<u32>)
        requires
            r < self.side(),
        ensures
            weights(line@) == row(self.side(), self@, r as int),
    {
        proof {
            use_type_invariant(self);
        }
        let n: usize = self.size;
        let total: usize = self.cells.len();
        let mut line: Vec<u32> = Vec::new();
        let mut c: usize = 0;
        while c < n
            invariant
                c <= n,
                r < n,
                n == self.size,
                total == n * n,
                total == self.cells@.len(),
                line@.len() == c,
                forall|j: int| 0 <= j < c ==> line@[j] == self.cells@[at(n as nat, r as int, j)],
            decreases n - c,
        {
            proof {
                lemma_at(n as nat, r as int, c as int);
            }
            line.push(self.cells[r * n + c]);
            c += 1;
        }
        proof {
            assert forall|j: int| 0 <= j < n implies weights(line@)[j] == row(
                n as nat,
                self@,
                r as int,
            )[j] by {
                lemma_at(n as nat, r as int, j);
            }
            assert(weights(line@) =~= row(n as nat, self@, r as int));
        }
        line
    }

    /// The cells of column `c`, from top to bottom.
    fn column_cells(&self, c: usize) -> (line: Vec<u32>)
        requires
            c < self.side(),
        ensures
            weights(line@) == column(self.side(), self@, c as int),
    {
        proof {
            use_type_invariant(self);
        }
        let n: usize = self.size;
        let total: usize = self.cells.len();
        let mut line: Vec<u32> = Vec::new();
        let mut r: usize = 0;
        while r < n
            invariant
                r <= n,
                c < n,
                n == self.size,
                total == n * n,
                total == self.cells@.len(),
                line@.len() == r,
                forall|j: int| 0 <= j < r ==> line@[j] == self.cells@[at(n as nat, j, c as int)],
            decreases n - r,
        {
            proof {
                lemma_at(n as nat, r as int, c as int);
            }
            line.push(self.cells[r * n + c]);
            r += 1;
        }
        proof {
            assert forall|j: int| 0 <= j < n implies weights(line@)[j] == column(
                n as nat,
                self@,
                c as int,
            )[j] by {
                lemma_at(n as nat, j, c as int);
            }
            assert(weights(line@) =~= column(n as nat, self@, c as int));
        }
        line
    }

    /// Puts `line` in the place of row `r`.
    fn set_row(&mut self, r: usize, line: &Vec<u32>)
        requires
            r < old(self).side(),
            line@.len() == old(self).side(),
        ensures
            final(self).wf(),
            final(self).side() == old(self).side(),
            final(self)@ == with_row(old(self).side(), old(self)@, r as int, weights(line@)),
    {
        proof {
            use_type_invariant(&*self);
        }
        let n: usize = self.size;
        let total: usize = self.cells.len();
        let ghost g = self@;
        let mut c: usize = 0;
        while c < n
            invariant
                c <= n,
                r < n,
                n >= 2,
                n == self.size,
                n == old(self).size,
                line@.len() == n,
                total == n * n,
                total == self.cells@.len(),
                g.len() == total,
                forall|k: int|
                    0 <= k < total ==> #[trigger] self@[k] == if row_of(n as nat, k) == r
                        && column_of(n as nat, k) < c {
                        weights(line@)[column_of(n as nat, k)]
                    } else {
                        g[k]
                    },
            decreases n - c,
        {
            proof {
                lemma_at(n as nat, r as int, c as int);
            }
            let ghost before = self@;
            self.cells[r * n + c] = line[c];
            proof {
                assert(self@ =~= before.update(
                    at(n as nat, r as int, c as int),
                    line@[c as int] as nat,
                ));
                assert forall|k: int| 0 <= k < total implies #[trigger] self@[k] == if row_of(
                    n as nat,
                    k,
                ) == r && column_of(n as nat, k) < c + 1 {
                    weights(line@)[column_of(n as nat, k)]
                } else {
                    g[k]
                } by {
                    lemma_coords(n as nat, k);
                }
            }
            c += 1;
        }
        proof {
            assert forall|k: int| 0 <= k < total implies self@[k] == with_row(
                n as nat,
                g,
                r as int,
                weights(line@),
            )[k] by {
                lemma_coords(n as nat, k);
            }
            assert(self@ =~= with_row(n as nat, g, r as int, weights(line@)));
        }
    }

    /// Tells whether every cell could still be stored after a move toward `dir`:
    /// whether no two tiles that the move would merge have a sum above `u32::MAX`.
    pub fn slide_fits(&self, dir: SlideDir) -> (ok: bool)
        ensures
            self.wf(),
            ok == fits(self.moved(dir)),
    {
        proof {
            use_type_invariant(self);
        }
        let ghost size = self.side();
        let ghost flat = laid(size, self@, dir);
        let upright: bool = match dir {
            SlideDir::Up | SlideDir::Down => true,
            SlideDir::Left | SlideDir::Right => false,
        };
        let merge_dir: MergeDir = match dir {
            SlideDir::Left | SlideDir::Up => MergeDir::Start,
            SlideDir::Right | SlideDir::Down => MergeDir::End,
        };
        proof {
            lemma_moved_fits_by_rows(size, self@, dir);
        }
        let n: usize = self.size;
        let mut r: usize = 0;
        while r < n
            invariant
                r <= n,
                n == self.size,
                n == size,
                self.wf(),
                flat == laid(size, self@, dir),
                merge_dir == toward(dir),
                upright == (dir == SlideDir::Up || dir == SlideDir::Down),
                fits(moved(size, self@, dir)) <==> forall|q: int|
                    0 <= q < size ==> fits(slid(#[trigger] row(size, flat, q), merge_dir)),
                forall|q: int| 0 <= q < r ==> fits(slid(#[trigger] row(size, flat, q), merge_dir)),
            decreases n - r,
        {
            let line: Vec<u32> = if upright {
                self.column_cells(r)
            } else {
                self.row_cells(r)
            };
            proof {
                if upright {
                    lemma_transposed_row(size, self@, r as int);
                }
                assert(weights(line@) == row(size, flat, r as int));
            }
            if !crate::line::slide_fits(line.as_slice(), merge_dir) {
                return false;
            }
            r += 1;
        }
        true
    }

    /// Makes a move: every tile goes as far toward `dir` as it can, and equal tiles that
    /// meet merge, each tile once at most. Returns whether that changed the board. If it
    /// did, a tile of weight 2 appears in one of the cells that the move left empty, picked
    /// at random: one tile more than the move left, and so one more than before the move
    /// where nothing merged. If it did not, the board stays as it is and no tile appears.
    /// The merged tiles have to fit into their cells; `slide_fits` tells whether they do.
    pub fn slide(&mut self, dir: SlideDir) -> (changed: bool)
        requires
            fits(old(self).moved(dir)),
        ensures
            final(self).wf(),
            final(self).side() == old(self).side(),
            changed == (old(self).moved(dir) != old(self)@),
            !changed ==> final(self)@ == old(self)@,
            changed ==> exists|k: int|
                0 <= k < old(self)@.len() && old(self).moved(dir)[k] == 0 && final(self)@ == old(
                    self,
                ).moved(dir).update(k, 2),
            changed ==> tile_count(final(self)@) == tile_count(old(self).moved(dir)) + 1,
            changed && tile_count(old(self).moved(dir)) == tile_count(old(self)@) ==> tile_count(
                final(self)@,
            ) == tile_count(old(self)@) + 1,
            all_weights(old(self)@) ==> all_weights(final(self)@),
    {
        proof {
            use_type_invariant(&*self);
        }
        let ghost size = self.side();
        let ghost g = self@;
        let ghost target = moved(size, g, dir);
        let upright: bool = match dir {
            SlideDir::Up | SlideDir::Down => true,
            SlideDir::Left | SlideDir::Right => false,
        };
        if upright {
            self.transpose();
        }
        let merge_dir: MergeDir = match dir {
            SlideDir::Left | SlideDir::Up => MergeDir::Start,
            SlideDir::Right | SlideDir::Down => MergeDir::End,
        };
        let ghost flat = self@;
        proof {
            assert(flat == laid(size, g, dir));
            assert(merge_dir == toward(dir));
            lemma_moved_by_rows(size, g, dir);
            lemma_rows_slid_bounds(size, flat, merge_dir);
        }

        let n: usize = self.size;
        let mut merged: bool = false;
        let mut r: usize = 0;
        while r < n
            invariant
                r <= n,
                n == self.size,
                n == size,
                self.wf(),
                is_grid(size, g),
                is_grid(size, flat),
                flat == laid(size, g, dir),
                merge_dir == toward(dir),
                fits(moved(size, g, dir)),
                self@ == rows_slid_before(size, flat, merge_dir, r as int),
                merged == (self@ != flat),
            decreases n - r,
        {
            proof {
                lemma_rows_slid_next(size, flat, merge_dir, r as int);
                lemma_moved_rows_fit(size, g, dir, r as int);
            }
            let mut line: Vec<u32> = self.row_cells(r);
            if can_slide(line.as_slice(), merge_dir) {
                crate::line::slide(line.as_mut_slice(), merge_dir);
                self.set_row(r, &line);
                merged = true;
            }
            r += 1;
        }
        if upright {
            self.transpose();
        }
        proof {
            assert(self@ == target);
            if merged {
                lemma_moved_leaves_gap(size, g, dir);
            }
            if all_weights(g) {
                lemma_moved_keeps_weights(size, g, dir);
            }
        }
        let changed: bool = merged && self.spawn_new_number();
        proof {
            if changed {
                let k = choose|k: int|
                    0 <= k < target.len() && target[k] == 0 && self@ == target.update(k, 2);
                lemma_tile_count_spawn(target, k, 2);
            }
        }
        changed
    }

    /// The places of the empty cells, in rising order.
    pub fn empty_cells(&self) -> (places: Vec<usize>)
        ensures
            forall|j: int|
                0 <= j < places@.len() ==> (#[trigger] places@[j]) < self@.len()
                    && self@[places@[j] as int] == 0,
            forall|k: int| 0 <= k < self@.len() && self@[k] == 0 ==> places@.contains(k as usize),
            forall|i: int, j: int| 0 <= i < j < places@.len() ==> places@[i] < places@[j],
    {
        proof {
            use_type_invariant(self);
        }
        let total: usize = self.cells.len();
        let mut places: Vec<usize> = Vec::new();
        let mut k: usize = 0;
        while k < total
            invariant
                k <= total,
                total == self.cells@.len(),
                forall|j: int|
                    0 <= j < places@.len() ==> (#[trigger] places@[j]) < k
                        && self@[places@[j] as int] == 0,
                forall|i: int| 0 <= i < k && self@[i] == 0 ==> places@.contains(i as usize),
                forall|i: int, j: int| 0 <= i < j < places@.len() ==> places@[i] < places@[j],
            decreases total - k,
        {
            if self.cells[k] == 0 {
                let ghost before = places@;
                places.push(k);
                proof {
                    assert(places@[before.len() as int] == k);
                    assert forall|i: int| 0 <= i < k + 1 && self@[i] == 0 implies places@.contains(
                        i as usize,
                    ) by {
                        if i < k {
                            assert(before.contains(i as usize));
                            let j = choose|j: int| 0 <= j < before.len() && before[j] == i as usize;
                            assert(places@[j] == i as usize);
                        }
                    }
                }
            }
            k += 1;
        }
        places
    }

    /// Puts a new tile of weight 2 into the cell that was picked, if one was.
    pub fn place_new_number(&mut self, picked: Option<usize>) -> (placed: bool)
        requires
            picked matches Some(place) ==> place < old(self)@.len() && old(self)@[place as int]
                == 0,
        ensures
            final(self).wf(),
            final(self).side() == old(self).side(),
            placed == picked is Some,
            match picked {
                Some(place) => final(self)@ == old(self)@.update(place as int, 2),
                None => final(self)@ == old(self)@,
            },
            all_weights(old(self)@) ==> all_weights(final(self)@),
    {
        proof {
            use_type_invariant(&*self);
        }
        if let Some(place) = picked {
            let ghost before = self@;
            self.cells[place] = 2;
            proof {
                assert(self@ =~= before.update(place as int, 2));
                lemma2_to64();
                assert(is_weight(2)) by {
                    assert(2 == pow2(1));
                }
            }
            true
        } else {
            false
        }
    }

    /// Puts a new tile of weight 2 into an empty cell picked at random. Returns `false`,
    /// and leaves the board as it is, when no cell is empty.
    pub fn spawn_new_number(&mut self) -> (spawned: bool)
        ensures
            final(self).wf(),
            final(self).side() == old(self).side(),
            spawned == exists|k: int| 0 <= k < old(self)@.len() && old(self)@[k] == 0,
            spawned ==> exists|k: int|
                0 <= k < old(self)@.len() && old(self)@[k] == 0 && final(self)@ == old(
                    self,
                )@.update(k, 2),
            !spawned ==> final(self)@ == old(self)@,
            all_weights(old(self)@) ==> all_weights(final(self)@),
    {
        proof {
            use_type_invariant(&*self);
        }
        let places: Vec<usize> = self.empty_cells();
        let mut rng = rand::rng();
        let picked: Option<usize> = choose_index(&places, &mut rng);
        proof {
            if places@.len() == 0 {
                assert forall|k: int| 0 <= k < self@.len() implies self@[k] != 0 by {
                    if self@[k] == 0 {
                        assert(places@.contains(k as usize));
                    }
                }
            } else {
                let place = picked->0;
                let j = choose|j: int| 0 <= j < places@.len() && places@[j] == place;
                assert(places@[j] < self@.len() && self@[places@[j] as int] == 0);
            }
        }
        self.place_new_number(picked)
    }
}

} // verus!
