//! Laws of the slide of one line.

use crate::line::{
    all_weights, bounded, compacted, facing, fits, is_weight, merged, occupied, padded, pending,
    slid, tiles, MergeDir,
};
use vstd::arithmetic::power2::{lemma_pow2_unfold, pow2};
use vstd::prelude::*;

verus! {

/// No tile of `t` equals its successor.
pub open spec fn distinct_neighbours(t: Seq<nat>) -> bool {
    forall|i: int| 0 < i < t.len() ==> t[i - 1] != #[trigger] t[i]
}

/// A line that a slide toward index 0 leaves as it is: no gap before a tile, and no
/// tile beside an equal one.
pub open spec fn settled(line: Seq<nat>) -> bool {
    forall|i: int|
        0 < i < line.len() ==> {
            &&& line[i - 1] == 0 ==> #[trigger] line[i] == 0
            &&& line[i - 1] != 0 ==> line[i - 1] != line[i]
        }
}

/// `v` is 0, or the weight of a tile of `line`, or the sum of two such equal weights.
pub open spec fn comes_from(line: Seq<nat>, v: nat) -> bool {
    v == 0 || exists|j: int|
        0 <= j < line.len() && (v == #[trigger] line[j] || v == line[j] + line[j])
}

/// The tiles of a line are the tile in its first cell, if any, and the tiles of the rest.
pub proof fn lemma_tiles_front(line: Seq<nat>)
    requires
        line.len() > 0,
    ensures
        tiles(line) == pending(line[0]) + tiles(line.skip(1)),
{
    assert(line =~= seq![line[0]] + line.skip(1));
    line.skip(1).lemma_filter_prepend(line[0], occupied());
}

/// A line has no more tiles than cells, and no tile is 0.
pub proof fn lemma_tiles_occupied(line: Seq<nat>)
    ensures
        tiles(line).len() <= line.len(),
        forall|i: int| 0 <= i < tiles(line).len() ==> #[trigger] tiles(line)[i] != 0,
{
    line.lemma_filter_len(occupied());
    assert forall|i: int| 0 <= i < tiles(line).len() implies #[trigger] tiles(line)[i] != 0 by {
        line.lemma_filter_pred(occupied(), i);
    }
}

/// The tiles of a line that starts with `t` and is empty behind it are `t`.
pub proof fn lemma_tiles_of_padded(t: Seq<nat>, n: nat)
    requires
        t.len() <= n,
        forall|i: int| 0 <= i < t.len() ==> #[trigger] t[i] != 0,
    ensures
        tiles(padded(t, n)) == t,
    decreases n,
{
    let line = padded(t, n);
    if n == 0 {
        line.lemma_filter_len(occupied());
        assert(tiles(line) =~= t);
    } else {
        lemma_tiles_front(line);
        if t.len() == 0 {
            assert(line.skip(1) =~= padded(t, (n - 1) as nat));
            lemma_tiles_of_padded(t, (n - 1) as nat);
            assert(tiles(line) =~= t);
        } else {
            let rest = t.skip(1);
            assert(line.skip(1) =~= padded(rest, (n - 1) as nat));
            assert forall|i: int| 0 <= i < rest.len() implies #[trigger] rest[i] != 0 by {
                assert(t[i + 1] != 0);
            }
            lemma_tiles_of_padded(rest, (n - 1) as nat);
            assert(t[0] != 0);
            assert(tiles(line) =~= t);
        }
    }
}

/// A line in which every cell holds a tile is its own sequence of tiles.
pub proof fn lemma_tiles_of_full(line: Seq<nat>)
    requires
        tiles(line).len() == line.len(),
    ensures
        tiles(line) == line,
    decreases line.len(),
{
    if line.len() == 0 {
        assert(tiles(line) =~= line);
    } else {
        let rest = line.skip(1);
        lemma_tiles_front(line);
        lemma_tiles_occupied(rest);
        lemma_tiles_of_full(rest);
        assert(tiles(line) =~= line);
    }
}

/// Merging a waiting tile `p` with the next tile `v` and the tiles behind it: equal tiles
/// give their sum, which is final; otherwise `p` is final and `v` waits in its place.
pub proof fn lemma_merged_step(p: nat, v: nat, rest: Seq<nat>)
    ensures
        merged(seq![p] + (seq![v] + rest)) == if p == v {
            seq![p + v] + merged(rest)
        } else {
            seq![p] + merged(seq![v] + rest)
        },
{
    let t = seq![p] + (seq![v] + rest);
    assert(t.skip(2) =~= rest);
    assert(t.skip(1) =~= seq![v] + rest);
}

/// Merging never adds a tile and never produces an empty cell.
pub proof fn lemma_merged_occupied(t: Seq<nat>)
    requires
        forall|i: int| 0 <= i < t.len() ==> #[trigger] t[i] != 0,
    ensures
        merged(t).len() <= t.len(),
        forall|i: int| 0 <= i < merged(t).len() ==> #[trigger] merged(t)[i] != 0,
    decreases t.len(),
{
    if t.len() >= 2 {
        if t[0] == t[1] {
            lemma_merged_occupied(t.skip(2));
        } else {
            lemma_merged_occupied(t.skip(1));
        }
    }
}

/// Merging leaves a sequence of tiles as it is exactly when no tile equals its
/// successor; otherwise the result is shorter.
pub proof fn lemma_merged_fixed(t: Seq<nat>)
    ensures
        merged(t).len() <= t.len(),
        distinct_neighbours(t) ==> merged(t) == t,
        !distinct_neighbours(t) ==> merged(t).len() < t.len(),
    decreases t.len(),
{
    if t.len() >= 2 {
        if t[0] == t[1] {
            lemma_merged_fixed(t.skip(2));
            assert(t[1 - 1] == t[1]);
        } else {
            let rest = t.skip(1);
            lemma_merged_fixed(rest);
            if distinct_neighbours(t) {
                assert forall|i: int| 0 < i < rest.len() implies rest[i - 1]
                    != #[trigger] rest[i] by {
                    assert(t[i + 1 - 1] != t[i + 1]);
                }
                assert(merged(t) =~= t);
            } else {
                let i = choose|i: int| 0 < i < t.len() && t[i - 1] == #[trigger] t[i];
                assert(i > 1);
                assert(rest[i - 1 - 1] == rest[i - 1]);
            }
        }
    }
}

/// Every tile that merging gives is a tile that went in, or the sum of two equal ones.
pub proof fn lemma_merged_entries(t: Seq<nat>)
    ensures
        forall|k: int| 0 <= k < merged(t).len() ==> comes_from(t, #[trigger] merged(t)[k]),
    decreases t.len(),
{
    if t.len() >= 2 {
        let step: int = if t[0] == t[1] {
            2
        } else {
            1
        };
        let rest = t.skip(step);
        lemma_merged_entries(rest);
        assert forall|k: int| 0 <= k < merged(t).len() implies comes_from(
            t,
            #[trigger] merged(t)[k],
        ) by {
            let v = merged(t)[k];
            if k == 0 {
                assert(v == t[0] || v == t[0] + t[0]);
            } else {
                assert(v == merged(rest)[k - 1]);
                assert(comes_from(rest, v));
                if v != 0 {
                    let j = choose|j: int|
                        0 <= j < rest.len() && (v == #[trigger] rest[j] || v == rest[j] + rest[j]);
                    assert(rest[j] == t[j + step]);
                }
            }
        }
    }
}

/// In a settled line every cell behind an empty cell is empty.
pub proof fn lemma_settled_gap(line: Seq<nat>, i: int, j: int)
    requires
        settled(line),
        0 <= i <= j < line.len(),
        line[i] == 0,
    ensures
        line[j] == 0,
    decreases j - i,
{
    if i < j {
        lemma_settled_gap(line, i, j - 1);
        assert(line[j - 1] == 0 ==> line[j] == 0);
    }
}

/// A settled line is its tiles followed by empty cells, and none of its tiles equals its
/// successor.
pub proof fn lemma_settled_shape(line: Seq<nat>)
    requires
        settled(line),
    ensures
        line == padded(tiles(line), line.len()),
        distinct_neighbours(tiles(line)),
    decreases line.len(),
{
    let n = line.len();
    if n == 0 {
        assert(line =~= padded(tiles(line), n));
        lemma_tiles_occupied(line);
    } else {
        let rest = line.skip(1);
        assert forall|i: int| 0 < i < rest.len() implies {
            &&& rest[i - 1] == 0 ==> #[trigger] rest[i] == 0
            &&& rest[i - 1] != 0 ==> rest[i - 1] != rest[i]
        } by {
            assert(line[i + 1 - 1] == rest[i - 1] && line[i + 1] == rest[i]);
        }
        lemma_settled_shape(rest);
        lemma_tiles_front(line);
        lemma_tiles_occupied(rest);
        let t = tiles(rest);
        if t.len() > 0 {
            assert(rest[0] == t[0]);
            assert(line[1 - 1] == line[0] && line[1] == rest[0]);
        }
        if line[0] == 0 {
            assert(t.len() == 0);
            assert forall|i: int| 0 <= i < n implies line[i] == 0 by {
                if i > 0 {
                    assert(rest[i - 1] == 0);
                }
            }
            assert(line =~= padded(tiles(line), n));
        } else {
            assert forall|i: int| 0 <= i < n implies line[i] == padded(tiles(line), n)[i] by {
                if i > 0 {
                    assert(line[i] == rest[i - 1]);
                }
            }
            assert(line =~= padded(tiles(line), n));
            let u = tiles(line);
            assert forall|i: int| 0 < i < u.len() implies u[i - 1] != #[trigger] u[i] by {
                if i > 1 {
                    assert(t[i - 1 - 1] != t[i - 1]);
                }
            }
        }
    }
}

/// A slide toward index 0 leaves a line as it is exactly when the line is settled.
pub proof fn lemma_compacted_fixed(line: Seq<nat>)
    ensures
        compacted(line) == line <==> settled(line),
{
    let n = line.len();
    let t = tiles(line);
    lemma_tiles_occupied(line);
    lemma_merged_occupied(t);
    lemma_merged_fixed(t);
    if settled(line) {
        lemma_settled_shape(line);
    }
    if compacted(line) == line {
        lemma_tiles_of_padded(merged(t), n);
        assert forall|i: int| 0 < i < n implies {
            &&& line[i - 1] == 0 ==> #[trigger] line[i] == 0
            &&& line[i - 1] != 0 ==> line[i - 1] != line[i]
        } by {
            assert(line[i] == padded(t, n)[i]);
            assert(line[i - 1] == padded(t, n)[i - 1]);
            if i < t.len() {
                assert(t[i - 1] != t[i]);
            }
        }
    }
}

/// A slide toward index 0 that changes a line leaves its last cell empty.
pub proof fn lemma_compacted_leaves_gap(line: Seq<nat>)
    requires
        compacted(line) != line,
    ensures
        line.len() > 0,
        compacted(line)[line.len() - 1] == 0,
{
    let n = line.len();
    let t = tiles(line);
    lemma_tiles_occupied(line);
    lemma_merged_fixed(t);
    if merged(t).len() >= n {
        lemma_tiles_of_full(line);
        assert(compacted(line) =~= line);
    }
}

/// A slide toward `dir` changes a line exactly when the line, seen from that end, is not
/// settled.
pub proof fn lemma_slid_fixed(line: Seq<nat>, dir: MergeDir)
    ensures
        slid(line, dir) == line <==> settled(facing(line, dir)),
{
    lemma_compacted_fixed(facing(line, dir));
    if dir == MergeDir::End {
        let back = line.reverse();
        assert(back.reverse() =~= line);
        assert(compacted(back).reverse().reverse() =~= compacted(back));
    }
}

/// A slide that changes a line leaves at least one of its cells empty.
pub proof fn lemma_slid_leaves_gap(line: Seq<nat>, dir: MergeDir)
    requires
        slid(line, dir) != line,
    ensures
        exists|k: int| 0 <= k < line.len() && slid(line, dir)[k] == 0,
{
    let n = line.len() as int;
    match dir {
        MergeDir::Start => {
            lemma_compacted_leaves_gap(line);
            assert(slid(line, dir)[n - 1] == 0);
        },
        MergeDir::End => {
            let back = line.reverse();
            assert(back.reverse() =~= line);
            lemma_compacted_leaves_gap(back);
            assert(slid(line, dir)[0] == compacted(back)[n - 1]);
        },
    }
}

/// A line without an empty cell in which no two neighbours are equal stays as it is
/// under a slide toward either end.
pub proof fn lemma_full_line_stays(line: Seq<nat>, end: MergeDir)
    requires
        forall|i: int| 0 <= i < line.len() ==> #[trigger] line[i] != 0,
        forall|i: int| 0 < i < line.len() ==> line[i - 1] != #[trigger] line[i],
    ensures
        slid(line, end) == line,
{
    let n = line.len() as int;
    let seen = facing(line, end);
    assert forall|i: int| 0 < i < n implies {
        &&& seen[i - 1] == 0 ==> #[trigger] seen[i] == 0
        &&& seen[i - 1] != 0 ==> seen[i - 1] != seen[i]
    } by {
        if end == MergeDir::End {
            assert(seen[i] == line[n - 1 - i]);
            assert(seen[i - 1] == line[n - i]);
            assert(line[n - i - 1] != line[n - i]);
        }
    }
    lemma_slid_fixed(line, end);
}

/// A line that holds a tile and an empty cell changes under a slide toward one of its
/// ends: toward the start if the empty cell comes first, toward the end if the tile does.
pub proof fn lemma_gapped_line_slides(line: Seq<nat>, tile: int, gap: int)
    requires
        0 <= tile < line.len(),
        0 <= gap < line.len(),
        line[tile] != 0,
        line[gap] == 0,
    ensures
        gap < tile ==> slid(line, MergeDir::Start) != line,
        tile < gap ==> slid(line, MergeDir::End) != line,
{
    let n = line.len() as int;
    if gap < tile {
        lemma_slid_fixed(line, MergeDir::Start);
        if settled(line) {
            lemma_settled_gap(line, gap, tile);
        }
    } else {
        let back = line.reverse();
        lemma_slid_fixed(line, MergeDir::End);
        if settled(back) {
            assert(back[n - 1 - gap] == 0);
            assert(back[n - 1 - tile] != 0);
            lemma_settled_gap(back, n - 1 - gap, n - 1 - tile);
        }
    }
}

/// A line with a tile beside an equal tile changes under a slide toward either end.
pub proof fn lemma_paired_line_slides(line: Seq<nat>, i: int, end: MergeDir)
    requires
        0 < i < line.len(),
        line[i] != 0,
        line[i - 1] == line[i],
    ensures
        slid(line, end) != line,
{
    let n = line.len() as int;
    let seen = facing(line, end);
    lemma_slid_fixed(line, end);
    if settled(seen) {
        match end {
            MergeDir::Start => {
                assert(seen[i - 1] != seen[i]);
            },
            MergeDir::End => {
                assert(seen[n - i] == line[i - 1]);
                assert(seen[n - i - 1] == line[i]);
                assert(seen[n - i - 1] != seen[n - i]);
            },
        }
    }
}

/// Every cell of a line after a slide is empty, or holds a tile of the line before it, or
/// the sum of two equal tiles of it: a tile takes part in one merge at most.
pub proof fn lemma_slid_entries(line: Seq<nat>, dir: MergeDir)
    ensures
        forall|k: int| 0 <= k < line.len() ==> comes_from(line, #[trigger] slid(line, dir)[k]),
{
    let n = line.len() as int;
    let seen = facing(line, dir);
    let t = tiles(seen);
    lemma_tiles_occupied(seen);
    lemma_merged_fixed(t);
    lemma_merged_entries(t);
    assert forall|k: int| 0 <= k < n implies comes_from(line, #[trigger] slid(line, dir)[k]) by {
        let v = slid(line, dir)[k];
        let at: int = if dir == MergeDir::Start {
            k
        } else {
            n - 1 - k
        };
        assert(v == compacted(seen)[at]);
        if v != 0 {
            assert(v == merged(t)[at]);
            assert(comes_from(t, v));
            let j = choose|j: int|
                0 <= j < t.len() && (v == #[trigger] t[j] || v == t[j] + t[j]);
            assert(t.contains(t[j]));
            seen.lemma_filter_contains_rev(occupied(), t[j]);
            let i = choose|i: int| 0 <= i < seen.len() && seen[i] == t[j];
            let origin: int = if dir == MergeDir::Start {
                i
            } else {
                n - 1 - i
            };
            assert(line[origin] == t[j]);
        }
    }
}

/// A slide keeps the tiles powers of two: a merge adds two equal powers of two.
pub proof fn lemma_slid_keeps_weights(line: Seq<nat>, dir: MergeDir)
    requires
        all_weights(line),
    ensures
        all_weights(slid(line, dir)),
{
    lemma_slid_entries(line, dir);
    let after = slid(line, dir);
    assert forall|k: int| 0 <= k < after.len() implies is_weight(#[trigger] after[k]) by {
        let v = after[k];
        assert(comes_from(line, v));
        if v != 0 {
            let j = choose|j: int|
                0 <= j < line.len() && (v == #[trigger] line[j] || v == line[j] + line[j]);
            assert(is_weight(line[j]));
            if v != line[j] {
                let e = choose|e: nat| line[j] == #[trigger] pow2(e);
                lemma_pow2_unfold(e + 1);
                assert(v == pow2(e + 1));
            }
        }
    }
}

/// A slide at most doubles the largest tile of a line.
pub proof fn lemma_slid_bounded(line: Seq<nat>, dir: MergeDir, bound: nat)
    requires
        bounded(line, bound),
    ensures
        bounded(slid(line, dir), 2 * bound),
{
    lemma_slid_entries(line, dir);
    let after = slid(line, dir);
    assert forall|k: int| 0 <= k < after.len() implies #[trigger] after[k] <= 2 * bound by {
        let v = after[k];
        assert(comes_from(line, v));
        if v != 0 {
            let j = choose|j: int|
                0 <= j < line.len() && (v == #[trigger] line[j] || v == line[j] + line[j]);
            assert(line[j] <= bound);
        }
    }
}

/// A slid line fits exactly when the merged tiles of the line, seen from the end toward
/// which it slides, fit.
pub proof fn lemma_slid_fits(line: Seq<nat>, dir: MergeDir)
    ensures
        fits(slid(line, dir)) <==> fits(merged(tiles(facing(line, dir)))),
{
    let seen = facing(line, dir);
    let n = line.len() as int;
    let m = merged(tiles(seen));
    let packed = compacted(seen);
    lemma_tiles_occupied(seen);
    lemma_merged_fixed(tiles(seen));
    assert(slid(line, dir) == facing(packed, dir));
    if fits(slid(line, dir)) {
        assert forall|i: int| 0 <= i < m.len() implies #[trigger] m[i] <= u32::MAX by {
            assert(packed[i] == m[i]);
            if dir == MergeDir::End {
                assert(packed.reverse()[n - 1 - i] == packed[i]);
            }
        }
    }
    if fits(m) {
        assert forall|i: int| 0 <= i < n implies #[trigger] packed[i] <= u32::MAX by {
            if i < m.len() {
                assert(packed[i] == m[i]);
            }
        }
    }
}

/// After a slide the tiles are packed: seen from the end toward which the line slid, no
/// tile stands behind an empty cell.
pub proof fn lemma_slid_packed(line: Seq<nat>, dir: MergeDir, i: int, j: int)
    requires
        0 <= i <= j < line.len(),
        facing(slid(line, dir), dir)[i] == 0,
    ensures
        facing(slid(line, dir), dir)[j] == 0,
{
    let seen = facing(line, dir);
    let packed = compacted(seen);
    lemma_tiles_occupied(seen);
    lemma_merged_occupied(tiles(seen));
    assert(facing(slid(line, dir), dir) =~= packed) by {
        if dir == MergeDir::End {
            assert(packed.reverse().reverse() =~= packed);
        }
    }
}

} // verus!
