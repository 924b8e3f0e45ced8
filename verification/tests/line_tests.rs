use ya2048::MergeDir::{End, Start};
use ya2048::{can_slide, slide, slide_fits};

#[test]
fn test_merge_empty() {
    let mut stack = vec![];
    slide(&mut stack, Start);
    assert_eq!(stack, Vec::<u32>::new());

    let mut stack = vec![];
    slide(&mut stack, End);
    assert_eq!(stack, Vec::<u32>::new());
}

#[test]
fn test_merge_to_start() {
    let mut stack = vec![1, 1, 0, 0];
    slide(&mut stack, Start);
    assert_eq!(stack, vec![2, 0, 0, 0]);

    let mut stack = vec![1, 1, 1, 0];
    slide(&mut stack, Start);
    assert_eq!(stack, vec![2, 1, 0, 0]);

    let mut stack = vec![1, 1, 1, 1];
    slide(&mut stack, Start);
    assert_eq!(stack, vec![2, 2, 0, 0]);

    let mut stack = vec![1, 2, 1, 2];
    slide(&mut stack, Start);
    assert_eq!(stack, vec![1, 2, 1, 2]);

    let mut stack = vec![1, 2, 2, 2];
    slide(&mut stack, Start);
    assert_eq!(stack, vec![1, 4, 2, 0]);

    let mut stack = vec![2, 2, 2, 1];
    slide(&mut stack, Start);
    assert_eq!(stack, vec![4, 2, 1, 0]);

    let mut stack = vec![2, 0, 2, 0, 2, 0, 1];
    slide(&mut stack, Start);
    assert_eq!(stack, vec![4, 2, 1, 0, 0, 0, 0]);
}

#[test]
fn test_merge_to_end() {
    let mut stack = vec![0, 0, 1, 1];
    slide(&mut stack, End);
    assert_eq!(stack, vec![0, 0, 0, 2]);

    let mut stack = vec![0, 1, 1, 1];
    slide(&mut stack, End);
    assert_eq!(stack, vec![0, 0, 1, 2]);

    let mut stack = vec![1, 1, 1, 1];
    slide(&mut stack, End);
    assert_eq!(stack, vec![0, 0, 2, 2]);

    let mut stack = vec![1, 2, 1, 2];
    slide(&mut stack, End);
    assert_eq!(stack, vec![1, 2, 1, 2]);

    let mut stack = vec![1, 2, 2, 2];
    slide(&mut stack, End);
    assert_eq!(stack, vec![0, 1, 2, 4]);
}

#[test]
fn test_can_merge() {
    assert_eq!(can_slide(&[], Start), false);
    assert_eq!(can_slide(&[], End), false);

    assert_eq!(can_slide(&[1], Start), false);
    assert_eq!(can_slide(&[1], End), false);

    assert_eq!(can_slide(&[0], Start), false);
    assert_eq!(can_slide(&[0], End), false);

    assert_eq!(can_slide(&[1, 1], Start), true);
    assert_eq!(can_slide(&[1, 1], End), true);

    assert_eq!(can_slide(&[1, 2], Start), false);
    assert_eq!(can_slide(&[1, 2], End), false);

    assert_eq!(can_slide(&[1, 2, 0, 0], Start), false);
    assert_eq!(can_slide(&[1, 2, 0, 0], End), true);

    assert_eq!(can_slide(&[0, 0, 1, 2], Start), true);
    assert_eq!(can_slide(&[0, 0, 1, 2], End), false);

    assert_eq!(can_slide(&[0, 1, 2, 1], Start), true);
    assert_eq!(can_slide(&[0, 1, 2, 1], End), false);

    assert_eq!(can_slide(&[1, 0, 0, 1], Start), true);
    assert_eq!(can_slide(&[1, 0, 0, 1], End), true);

    assert_eq!(can_slide(&[0, 0, 0, 2], End), false);
    assert_eq!(can_slide(&[0, 0, 2, 0], End), true);
    assert_eq!(can_slide(&[0, 0, 0, 0], End), false);
    assert_eq!(can_slide(&[0, 0, 0, 0], End), false);
}

/// The line after a slide toward index 0, worked out tile by tile: the tiles in their
/// order, each pair of equal neighbours made one, the rest of the line empty.
fn packed(line: &[u32]) -> Vec<u32> {
    let tiles: Vec<u32> = line.iter().copied().filter(|v| *v != 0).collect();
    let mut out: Vec<u32> = Vec::new();
    let mut k = 0;
    while k < tiles.len() {
        if k + 1 < tiles.len() && tiles[k] == tiles[k + 1] {
            out.push(tiles[k] + tiles[k + 1]);
            k += 2;
        } else {
            out.push(tiles[k]);
            k += 1;
        }
    }
    out.resize(line.len(), 0);
    out
}

/// Every line of the given length over the weights 0, 1, 2 and 4.
fn all_lines(len: usize) -> Vec<Vec<u32>> {
    let weights = [0u32, 1, 2, 4];
    let mut lines: Vec<Vec<u32>> = vec![vec![]];
    for _ in 0..len {
        let mut longer = Vec::new();
        for line in &lines {
            for w in weights {
                let mut next = line.clone();
                next.push(w);
                longer.push(next);
            }
        }
        lines = longer;
    }
    lines
}

#[test]
fn slide_to_start_packs_and_merges_every_line() {
    for len in 0..=6 {
        for line in all_lines(len) {
            let mut stack = line.clone();
            slide(&mut stack, Start);
            assert_eq!(stack, packed(&line), "line {:?}", line);
        }
    }
}

#[test]
fn slide_to_end_mirrors_slide_to_start() {
    for len in 0..=6 {
        for line in all_lines(len) {
            let mut mirrored = line.clone();
            mirrored.reverse();
            let mut expected = packed(&mirrored);
            expected.reverse();
            let mut stack = line.clone();
            slide(&mut stack, End);
            assert_eq!(stack, expected, "line {:?}", line);
        }
    }
}

#[test]
fn can_slide_tells_whether_slide_changes_the_line() {
    for len in 0..=6 {
        for line in all_lines(len) {
            for dir in [Start, End] {
                let mut stack = line.clone();
                slide(&mut stack, dir);
                assert_eq!(can_slide(&line, dir), stack != line, "line {:?} {:?}", line, dir);
            }
        }
    }
}

#[test]
fn slide_leaves_short_lines_alone() {
    for dir in [Start, End] {
        let mut none: Vec<u32> = vec![];
        slide(&mut none, dir);
        assert_eq!(none, Vec::<u32>::new());
        assert!(!can_slide(&none, dir));

        let mut one = vec![8];
        slide(&mut one, dir);
        assert_eq!(one, vec![8]);
        assert!(!can_slide(&one, dir));

        let mut gap = vec![0];
        slide(&mut gap, dir);
        assert_eq!(gap, vec![0]);
        assert!(!can_slide(&gap, dir));
    }
}

#[test]
fn slide_merges_a_tile_once() {
    let mut stack = vec![2, 2, 4, 0];
    slide(&mut stack, Start);
    assert_eq!(stack, vec![4, 4, 0, 0]);

    let mut stack = vec![4, 4, 8, 16];
    slide(&mut stack, Start);
    assert_eq!(stack, vec![8, 8, 16, 0]);

    let mut stack = vec![0, 4, 2, 2];
    slide(&mut stack, End);
    assert_eq!(stack, vec![0, 0, 4, 4]);

    let mut stack = vec![2, 2, 2, 2, 2];
    slide(&mut stack, End);
    assert_eq!(stack, vec![0, 0, 2, 4, 4]);
}

#[test]
fn slide_leaves_unequal_neighbours_alone() {
    for dir in [Start, End] {
        let mut stack = vec![1, 2, 1, 2];
        assert!(!can_slide(&stack, dir));
        slide(&mut stack, dir);
        assert_eq!(stack, vec![1, 2, 1, 2]);
    }
}

#[test]
fn slide_keeps_the_largest_weights_that_fit() {
    let half = 1u32 << 30;
    let mut stack = vec![half, half, 0, 1 << 31];
    slide(&mut stack, Start);
    assert_eq!(stack, vec![1 << 31, 1 << 31, 0, 0]);
}

#[test]
fn slide_fits_tells_whether_a_merge_outgrows_a_cell() {
    let top = 1u32 << 31;
    for dir in [Start, End] {
        assert!(slide_fits(&[], dir));
        assert!(slide_fits(&[u32::MAX], dir));
        assert!(slide_fits(&[1, 1, 2, 0], dir));
        assert!(slide_fits(&[top - 1, 0, top - 1], dir));
        assert!(slide_fits(&[top, 1, top], dir));
        assert!(slide_fits(&[top, 0, 1, 0, top], dir));
        assert!(!slide_fits(&[top, top], dir));
        assert!(!slide_fits(&[top, 0, 0, top], dir));
        assert!(!slide_fits(&[u32::MAX, u32::MAX, 0], dir));
        assert!(!slide_fits(&[2, 2, top, 0, top], dir));
    }
    // of three equal tiles the two nearest the end merge
    let half = 1u32 << 30;
    assert!(slide_fits(&[half, half, half], Start));
    assert!(!slide_fits(&[top, top, top], Start));
    assert!(slide_fits(&[top, 4, 4, 4], Start));
    assert!(slide_fits(&[4, 4, 4, top], End));
    // a tile that has merged does not merge again
    assert!(slide_fits(&[half, half, top], Start));
    assert!(slide_fits(&[top, half, half], End));
    assert!(slide_fits(&[top, half, half], Start));
}
