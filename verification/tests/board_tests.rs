use ya2048::{Board, BoardError, SlideDir, BOARD_CELLS, BOARD_SIZE};

#[test]
fn test_is_end() {
    let board = Board::new_with_nums([0_u32; BOARD_SIZE * BOARD_SIZE]);
    assert_eq!(board.is_end(), false);

    let board = Board::new_with_nums([2_u32; BOARD_SIZE * BOARD_SIZE]);
    assert_eq!(board.is_end(), false);

    let board = Board::new_with_nums([1, 2, 3, 4, 4, 5, 6, 7, 7, 8, 9, 10, 10, 11, 12, 13]);
    assert_eq!(board.is_end(), true);

    let board = Board::new_with_nums([1, 2, 1, 2, 2, 1, 2, 1, 2, 8, 9, 10, 10, 11, 12, 13]);
    assert_eq!(board.is_end(), false);
}

const DIRS: [SlideDir; 4] = [SlideDir::Up, SlideDir::Down, SlideDir::Left, SlideDir::Right];

fn tiles(cells: &[u32]) -> usize {
    cells.iter().filter(|v| **v != 0).count()
}

/// Checks that `after` is `moved` with one tile of weight 2 more, in a cell that `moved`
/// left empty.
fn assert_one_spawn(moved: &[u32], after: &[u32]) {
    assert_eq!(moved.len(), after.len());
    let changed: Vec<usize> = (0..moved.len()).filter(|k| moved[*k] != after[*k]).collect();
    assert_eq!(changed.len(), 1, "moved {:?} after {:?}", moved, after);
    assert_eq!(moved[changed[0]], 0);
    assert_eq!(after[changed[0]], 2);
    assert_eq!(tiles(after), tiles(moved) + 1);
}

#[test]
fn new_with_nums_keeps_the_cells() {
    let nums = [0, 2, 4, 8, 16, 32, 64, 128, 256, 512, 1024, 2048, 4096, 0, 2, 2];
    let board = Board::new_with_nums(nums);
    assert_eq!(board.size(), 4);
    assert_eq!(board.size(), BOARD_SIZE);
    assert_eq!(board.cells().len(), BOARD_CELLS);
    assert_eq!(board.cells(), &nums[..]);
}

#[test]
fn with_cells_takes_any_square() {
    let board = Board::with_cells(2, vec![1, 2, 3, 4]).unwrap();
    assert_eq!(board.size(), 2);
    assert_eq!(board.cells(), &[1, 2, 3, 4][..]);

    let board = Board::with_cells(3, vec![0; 9]).unwrap();
    assert_eq!(board.size(), 3);
    assert_eq!(board.cells(), &[0; 9][..]);
}

#[test]
fn with_cells_refuses_a_side_below_two() {
    assert_eq!(Board::with_cells(0, vec![]).err(), Some(BoardError::TooSmall));
    assert_eq!(Board::with_cells(1, vec![2]).err(), Some(BoardError::TooSmall));
    assert_eq!(Board::with_cells(1, vec![2, 2]).err(), Some(BoardError::TooSmall));
}

#[test]
fn with_cells_refuses_a_wrong_number_of_cells() {
    assert_eq!(Board::with_cells(2, vec![]).err(), Some(BoardError::WrongLength));
    assert_eq!(Board::with_cells(2, vec![0; 3]).err(), Some(BoardError::WrongLength));
    assert_eq!(Board::with_cells(3, vec![0; 8]).err(), Some(BoardError::WrongLength));
    assert_eq!(Board::with_cells(3, vec![0; 16]).err(), Some(BoardError::WrongLength));
    assert_eq!(Board::with_cells(usize::MAX, vec![0; 4]).err(), Some(BoardError::WrongLength));
}

#[test]
fn new_refuses_a_side_below_two() {
    assert_eq!(Board::new(0).err(), Some(BoardError::TooSmall));
    assert_eq!(Board::new(1).err(), Some(BoardError::TooSmall));
}

#[test]
fn new_seeds_two_tiles_of_weight_two() {
    for size in 2..=7 {
        for _ in 0..50 {
            let board = Board::new(size).unwrap();
            assert_eq!(board.size(), size);
            assert_eq!(board.cells().len(), size * size);
            assert_eq!(board.cells().iter().filter(|v| **v == 2).count(), 2);
            assert_eq!(board.cells().iter().filter(|v| **v == 0).count(), size * size - 2);
            assert!(!board.is_end());
        }
    }
}

#[test]
fn new_picks_its_cells_at_random() {
    let mut elsewhere = false;
    let mut second_first = false;
    for _ in 0..400 {
        let board = Board::new(4).unwrap();
        let cells = board.cells();
        if cells[0] != 2 || cells[1] != 2 {
            elsewhere = true;
        }
        if cells[0] == 0 {
            second_first = true;
        }
    }
    assert!(elsewhere);
    assert!(second_first);
}

#[test]
fn opening_puts_two_tiles_where_asked() {
    let board = Board::opening(3, 7, 2);
    assert_eq!(board.size(), 3);
    assert_eq!(board.cells(), &[0, 0, 2, 0, 0, 0, 0, 2, 0][..]);

    let board = Board::opening(2, 0, 3);
    assert_eq!(board.cells(), &[2, 0, 0, 2][..]);
}

#[test]
fn transpose_mirrors_at_the_diagonal() {
    let mut board = Board::with_cells(3, vec![1, 2, 3, 4, 5, 6, 7, 8, 9]).unwrap();
    board.transpose();
    assert_eq!(board.cells(), &[1, 4, 7, 2, 5, 8, 3, 6, 9][..]);

    let mut board = Board::with_cells(2, vec![1, 2, 3, 4]).unwrap();
    board.transpose();
    assert_eq!(board.cells(), &[1, 3, 2, 4][..]);
}

#[test]
fn transpose_twice_gives_the_board_back() {
    let nums = [1, 2, 3, 4, 5, 6, 7, 8, 9, 10, 11, 12, 13, 14, 15, 16];
    let mut board = Board::new_with_nums(nums);
    board.transpose();
    assert_eq!(board.cells(), &[1, 5, 9, 13, 2, 6, 10, 14, 3, 7, 11, 15, 4, 8, 12, 16][..]);
    board.transpose();
    assert_eq!(board.cells(), &nums[..]);

    for size in 2..=6usize {
        let cells: Vec<u32> = (0..size * size).map(|k| (k * 7 % 11) as u32).collect();
        let mut board = Board::with_cells(size, cells.clone()).unwrap();
        board.transpose();
        board.transpose();
        assert_eq!(board.cells(), &cells[..]);
    }
}

#[test]
fn is_end_needs_a_full_board_without_equal_neighbours() {
    // full, no equal neighbours
    assert!(Board::with_cells(2, vec![2, 4, 4, 2]).unwrap().is_end());
    // full, equal neighbours in a row
    assert!(!Board::with_cells(2, vec![2, 2, 4, 8]).unwrap().is_end());
    assert!(!Board::with_cells(2, vec![4, 8, 2, 2]).unwrap().is_end());
    // full, equal neighbours in a column
    assert!(!Board::with_cells(2, vec![2, 4, 2, 8]).unwrap().is_end());
    assert!(!Board::with_cells(2, vec![4, 2, 8, 2]).unwrap().is_end());
    // the end of one row and the start of the next are no neighbours
    assert!(Board::with_cells(3, vec![2, 4, 8, 8, 16, 2, 4, 8, 16]).unwrap().is_end());
    // equal on a diagonal only
    assert!(Board::with_cells(2, vec![2, 4, 8, 2]).unwrap().is_end());
    // equal neighbours in the last row and in the last column
    assert!(!Board::with_cells(3, vec![2, 4, 8, 16, 32, 64, 128, 256, 256]).unwrap().is_end());
    assert!(!Board::with_cells(3, vec![2, 4, 8, 16, 32, 64, 128, 256, 64]).unwrap().is_end());
}

#[test]
fn is_end_is_false_with_an_empty_cell() {
    for place in 0..9 {
        let mut cells: Vec<u32> = vec![2, 4, 8, 16, 32, 64, 128, 256, 512];
        assert!(Board::with_cells(3, cells.clone()).unwrap().is_end());
        cells[place] = 0;
        assert!(!Board::with_cells(3, cells).unwrap().is_end());
    }
}

#[test]
fn slide_moves_rows_and_columns() {
    let nums = [2, 2, 0, 0, 0, 4, 4, 8, 2, 0, 2, 2, 0, 0, 0, 0];

    let mut board = Board::new_with_nums(nums);
    assert!(board.slide(SlideDir::Left));
    assert_one_spawn(&[4, 0, 0, 0, 8, 8, 0, 0, 4, 2, 0, 0, 0, 0, 0, 0], board.cells());

    let mut board = Board::new_with_nums(nums);
    assert!(board.slide(SlideDir::Right));
    assert_one_spawn(&[0, 0, 0, 4, 0, 0, 8, 8, 0, 0, 2, 4, 0, 0, 0, 0], board.cells());

    let mut board = Board::new_with_nums(nums);
    assert!(board.slide(SlideDir::Up));
    assert_one_spawn(&[4, 2, 4, 8, 0, 4, 2, 2, 0, 0, 0, 0, 0, 0, 0, 0], board.cells());

    let mut board = Board::new_with_nums(nums);
    assert!(board.slide(SlideDir::Down));
    assert_one_spawn(&[0, 0, 0, 0, 0, 0, 0, 0, 0, 2, 4, 8, 4, 4, 2, 2], board.cells());
}

#[test]
fn slide_of_a_row_of_ones() {
    let mut board =
        Board::new_with_nums([1, 1, 1, 1, 0, 0, 0, 0, 0, 0, 0, 0, 0, 0, 0, 0]);
    assert!(board.slide(SlideDir::Left));
    assert_one_spawn(&[2, 2, 0, 0, 0, 0, 0, 0, 0, 0, 0, 0, 0, 0, 0, 0], board.cells());

    let mut board =
        Board::new_with_nums([1, 1, 1, 1, 0, 0, 0, 0, 0, 0, 0, 0, 0, 0, 0, 0]);
    assert!(board.slide(SlideDir::Right));
    assert_one_spawn(&[0, 0, 2, 2, 0, 0, 0, 0, 0, 0, 0, 0, 0, 0, 0, 0], board.cells());
}

#[test]
fn slide_that_changes_nothing_spawns_nothing() {
    // full board of unequal neighbours: blocked in every direction
    let nums = [1, 2, 1, 2, 2, 1, 2, 1, 1, 2, 1, 2, 2, 1, 2, 1];
    for dir in DIRS {
        let mut board = Board::new_with_nums(nums);
        assert!(!board.slide(dir));
        assert_eq!(board.cells(), &nums[..]);
    }

    // tiles against the left wall: a move to the left is blocked
    let nums = [2, 4, 0, 0, 8, 0, 0, 0, 0, 0, 0, 0, 2, 4, 8, 0];
    let mut board = Board::new_with_nums(nums);
    assert!(!board.slide(SlideDir::Left));
    assert_eq!(board.cells(), &nums[..]);
    assert_eq!(tiles(board.cells()), 6);

    // tiles against the bottom wall: a move down is blocked
    let nums = [0, 0, 0, 0, 0, 0, 0, 0, 2, 0, 0, 0, 4, 8, 0, 2];
    let mut board = Board::new_with_nums(nums);
    assert!(!board.slide(SlideDir::Down));
    assert_eq!(board.cells(), &nums[..]);

    // an empty board does not change
    for dir in DIRS {
        let mut board = Board::new_with_nums([0; 16]);
        assert!(!board.slide(dir));
        assert_eq!(board.cells(), &[0; 16][..]);
    }
}

#[test]
fn slide_that_changes_the_board_adds_one_tile() {
    // a move without a merge: three tiles become four
    let mut board = Board::with_cells(3, vec![0, 2, 0, 0, 0, 4, 8, 0, 0]).unwrap();
    assert!(board.slide(SlideDir::Left));
    assert_one_spawn(&[2, 0, 0, 4, 0, 0, 8, 0, 0], board.cells());
    assert_eq!(tiles(board.cells()), 4);

    // a move with a merge on a full board: the merge makes the room for the new tile
    let mut board = Board::with_cells(2, vec![2, 2, 4, 8]).unwrap();
    assert!(board.slide(SlideDir::Left));
    assert_eq!(board.cells(), &[4, 2, 4, 8][..]);

    let mut board = Board::with_cells(2, vec![2, 4, 2, 8]).unwrap();
    assert!(board.slide(SlideDir::Down));
    assert_eq!(board.cells(), &[2, 4, 4, 8][..]);
}

#[test]
fn slide_on_other_sides() {
    let cells: Vec<u32> = vec![
        2, 2, 0, 0, 4, //
        0, 4, 4, 4, 0, //
        0, 0, 0, 0, 0, //
        8, 0, 8, 0, 8, //
        2, 4, 2, 4, 2,
    ];
    let mut board = Board::with_cells(5, cells.clone()).unwrap();
    assert!(board.slide(SlideDir::Left));
    assert_one_spawn(
        &[
            4, 4, 0, 0, 0, //
            8, 4, 0, 0, 0, //
            0, 0, 0, 0, 0, //
            16, 8, 0, 0, 0, //
            2, 4, 2, 4, 2,
        ],
        board.cells(),
    );
    let mut board = Board::with_cells(5, cells).unwrap();
    assert!(board.slide(SlideDir::Up));
    assert_one_spawn(
        &[
            2, 2, 4, 8, 4, //
            8, 8, 8, 0, 8, //
            2, 0, 2, 0, 2, //
            0, 0, 0, 0, 0, //
            0, 0, 0, 0, 0,
        ],
        board.cells(),
    );

    let mut board = Board::with_cells(3, vec![2, 0, 2, 4, 4, 4, 0, 0, 8]).unwrap();
    assert!(board.slide(SlideDir::Right));
    assert_one_spawn(&[0, 0, 4, 0, 4, 8, 0, 0, 8], board.cells());

    let mut board = Board::with_cells(3, vec![2, 0, 2, 4, 4, 4, 0, 0, 8]).unwrap();
    assert!(board.slide(SlideDir::Up));
    assert_one_spawn(&[2, 4, 2, 4, 0, 4, 0, 0, 8], board.cells());
}

#[test]
fn spawn_new_number_fills_an_empty_cell() {
    let nums = [2, 4, 8, 16, 0, 32, 64, 128, 256, 512, 0, 1024, 2, 4, 8, 0];
    let mut seen = [false; 16];
    for _ in 0..200 {
        let mut board = Board::new_with_nums(nums);
        assert!(board.spawn_new_number());
        assert_one_spawn(&nums, board.cells());
        for k in 0..16 {
            if board.cells()[k] != nums[k] {
                seen[k] = true;
            }
        }
    }
    let places: Vec<usize> = (0..16).filter(|k| seen[*k]).collect();
    assert_eq!(places, vec![4, 10, 15]);
}

#[test]
fn spawn_new_number_leaves_a_full_board() {
    let nums = [2, 4, 8, 16, 2, 32, 64, 128, 256, 512, 2, 1024, 2, 4, 8, 2];
    let mut board = Board::new_with_nums(nums);
    assert!(!board.spawn_new_number());
    assert_eq!(board.cells(), &nums[..]);
}

#[test]
fn place_new_number_sets_the_picked_cell() {
    let mut board = Board::with_cells(2, vec![4, 0, 0, 8]).unwrap();
    assert!(board.place_new_number(Some(2)));
    assert_eq!(board.cells(), &[4, 0, 2, 8][..]);
    assert!(!board.place_new_number(None));
    assert_eq!(board.cells(), &[4, 0, 2, 8][..]);
}

#[test]
fn empty_cells_lists_the_empty_places() {
    let board = Board::with_cells(3, vec![0, 2, 0, 4, 0, 0, 8, 16, 0]).unwrap();
    assert_eq!(board.empty_cells(), vec![0, 2, 4, 5, 8]);
    let board = Board::with_cells(2, vec![2, 4, 8, 16]).unwrap();
    assert_eq!(board.empty_cells(), Vec::<usize>::new());
}

#[test]
fn a_game_keeps_its_tiles_powers_of_two() {
    for _ in 0..20 {
        let mut board = Board::new(4).unwrap();
        let mut moves = 0;
        while !board.is_end() && moves < 2000 {
            let before: Vec<u32> = board.cells().to_vec();
            let dir = DIRS[moves % 4];
            let changed = board.slide(dir);
            if !changed {
                assert_eq!(board.cells(), &before[..]);
            }
            for v in board.cells() {
                assert!(*v == 0 || v.is_power_of_two());
            }
            moves += 1;
        }
    }
}

#[test]
fn slide_fits_looks_along_the_move() {
    let top = 1u32 << 31;
    // two tiles of the largest weight side by side in a row
    let board = Board::with_cells(2, vec![top, top, 2, 4]).unwrap();
    assert!(!board.slide_fits(SlideDir::Left));
    assert!(!board.slide_fits(SlideDir::Right));
    assert!(board.slide_fits(SlideDir::Up));
    assert!(board.slide_fits(SlideDir::Down));
    // and one above the other in a column
    let board = Board::with_cells(2, vec![2, top, 4, top]).unwrap();
    assert!(board.slide_fits(SlideDir::Left));
    assert!(board.slide_fits(SlideDir::Right));
    assert!(!board.slide_fits(SlideDir::Up));
    assert!(!board.slide_fits(SlideDir::Down));
    // a move that fits can be made
    let mut board = Board::with_cells(2, vec![top, 0, 0, top]).unwrap();
    for dir in DIRS {
        assert!(board.slide_fits(dir));
    }
    assert!(board.slide(SlideDir::Left));
    assert_one_spawn(&[top, 0, top, 0], board.cells());
}

#[test]
fn no_move_changes_a_board_at_its_end() {
    let nums = [1, 2, 3, 4, 4, 5, 6, 7, 7, 8, 9, 10, 10, 11, 12, 13];
    assert!(Board::new_with_nums(nums).is_end());
    for dir in DIRS {
        let mut board = Board::new_with_nums(nums);
        assert!(!board.slide(dir));
        assert_eq!(board.cells(), &nums[..]);
    }
}

#[test]
fn some_move_changes_a_board_that_is_not_at_its_end() {
    let boards: [[u32; 16]; 4] = [
        [2, 0, 0, 0, 0, 0, 0, 0, 0, 0, 0, 0, 0, 0, 0, 0],
        [1, 2, 3, 4, 4, 5, 6, 7, 7, 8, 9, 10, 10, 11, 12, 0],
        [1, 2, 3, 4, 4, 5, 6, 7, 7, 8, 9, 10, 10, 11, 13, 13],
        [1, 2, 3, 4, 4, 5, 6, 7, 7, 8, 9, 13, 10, 11, 12, 13],
    ];
    for nums in boards {
        assert!(!Board::new_with_nums(nums).is_end());
        let mut moves = 0;
        for dir in DIRS {
            let mut board = Board::new_with_nums(nums);
            if board.slide(dir) {
                moves += 1;
            }
        }
        assert!(moves > 0, "board {:?}", nums);
    }
}
