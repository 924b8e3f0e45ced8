//! One line of the grid: its model as a sequence of weights, and the slide that packs
//! its tiles toward one end and merges equal neighbours.

use crate::line_laws::{
    lemma_merged_fixed, lemma_merged_step, lemma_settled_gap, lemma_slid_fits, lemma_slid_fixed,
    lemma_tiles_front, lemma_tiles_occupied, settled,
};
use vstd::arithmetic::power2::pow2;
use vstd::prelude::*;

verus! {

/// The end of a line toward which its tiles are packed.
#[derive(Debug, Clone, Copy, PartialEq, Eq, Structural)]
pub enum MergeDir {
    Start,
    End,
}

/// The cells of a line as natural numbers: 0 is an empty cell, anything else a tile's weight.
pub open spec fn weights(cells: Seq<u32>) -> Seq<nat> {
    cells.map_values(|v: u32| v as nat)
}

/// Holds of the weight of a cell that carries a tile.
pub open spec fn occupied() -> spec_fn(nat) -> bool {
    |v: nat| v != 0
}

/// The tiles of a line: its non-empty cells, in their order.
pub open spec fn tiles(line: Seq<nat>) -> Seq<nat> {
    line.filter(occupied())
}

/// The tiles of one cell of weight `v`: its tile, or nothing where the cell is empty.
pub open spec fn pending(v: nat) -> Seq<nat> {
    if v != 0 {
        seq![v]
    } else {
        Seq::empty()
    }
}

/// Merges equal neighbours, front first. The sum of a merged pair is final: the tile
/// after the pair is compared with its own successor, never with the sum.
pub open spec fn merged(t: Seq<nat>) -> Seq<nat>
    decreases t.len(),
{
    if t.len() < 2 {
        t
    } else if t[0] == t[1] {
        seq![t[0] + t[1]] + merged(t.skip(2))
    } else {
        seq![t[0]] + merged(t.skip(1))
    }
}

/// A line of `n` cells that starts with `t` and is empty behind it.
pub open spec fn padded(t: Seq<nat>, n: nat) -> Seq<nat> {
    Seq::new(n, |i: int| if i < t.len() { t[i] } else { 0nat })
}

/// The line after its tiles were packed toward index 0 and merged on the way.
pub open spec fn compacted(line: Seq<nat>) -> Seq<nat> {
    padded(merged(tiles(line)), line.len())
}

/// The line as it is seen from the end toward which `dir` packs it.
pub open spec fn facing(line: Seq<nat>, dir: MergeDir) -> Seq<nat> {
    match dir {
        MergeDir::Start => line,
        MergeDir::End => line.reverse(),
    }
}

/// The line after a slide toward `dir`.
pub open spec fn slid(line: Seq<nat>, dir: MergeDir) -> Seq<nat> {
    match dir {
        MergeDir::Start => compacted(line),
        MergeDir::End => compacted(line.reverse()).reverse(),
    }
}

/// Every cell of the line can be stored in a `u32`.
pub open spec fn fits(line: Seq<nat>) -> bool {
    forall|i: int| 0 <= i < line.len() ==> #[trigger] line[i] <= u32::MAX
}

/// Every cell of the line is at most `bound`.
pub open spec fn bounded(line: Seq<nat>, bound: nat) -> bool {
    forall|i: int| 0 <= i < line.len() ==> #[trigger] line[i] <= bound
}

/// The weight of an empty cell, or a power of two.
pub open spec fn is_weight(v: nat) -> bool {
    v == 0 || exists|e: nat| v == #[trigger] pow2(e)
}

/// Every cell of the line is empty or holds a power of two.
pub open spec fn all_weights(line: Seq<nat>) -> bool {
    forall|i: int| 0 <= i < line.len() ==> is_weight(#[trigger] line[i])
}

/// Reverses the line in place.
fn reverse(stack: &mut [u32])
    ensures
        final(stack)@ == old(stack)@.reverse(),
{
    let n: usize = stack.len();
    let mut i: usize = 0;
    while i < n / 2
        invariant
            n == stack@.len(),
            n == old(stack)@.len(),
            i <= n / 2,
            forall|k: int| 0 <= k < i ==> stack@[k] == old(stack)@[n - 1 - k],
            forall|k: int| n - i <= k < n ==> stack@[k] == old(stack)@[n - 1 - k],
            forall|k: int| i <= k < n - i ==> stack@[k] == old(stack)@[k],
        decreases n / 2 - i,
    {
        let a: u32 = stack[i];
        let b: u32 = stack[n - 1 - i];
        stack[i] = b;
        stack[n - 1 - i] = a;
        i += 1;
    }
}

/// The state of a pass over a line that began as `start`, when the cells before `i` have
/// been read and the write cursor stands at `pos`: the cells before the cursor are final,
/// the cursor's cell holds the tile that may still merge, if any, the cells between the
/// cursor and `i` are empty, and the cells from `i` on are as they were.
spec fn passed(start: Seq<nat>, now: Seq<nat>, pos: int, i: int) -> bool {
    &&& now.len() == start.len()
    &&& 0 <= pos < i <= start.len()
    &&& forall|k: int| pos < k < i ==> #[trigger] now[k] == 0
    &&& forall|k: int| i <= k < start.len() ==> #[trigger] now[k] == start[k]
    &&& merged(tiles(start)) == now.take(pos) + merged(
        pending(now[pos]) + tiles(start.skip(i)),
    )
}

/// The tiles of the cells from `i` on: the tile in cell `i`, if any, and those behind it.
proof fn lemma_tiles_from(start: Seq<nat>, i: int)
    requires
        0 <= i < start.len(),
    ensures
        tiles(start.skip(i)) == pending(start[i]) + tiles(start.skip(i + 1)),
{
    lemma_tiles_front(start.skip(i));
    assert(start.skip(i).skip(1) =~= start.skip(i + 1));
}

/// Once the first cell has been read, the pass stands at the first cell.
proof fn lemma_pass_begins(start: Seq<nat>)
    requires
        start.len() > 0,
    ensures
        passed(start, start, 0, 1),
{
    lemma_tiles_from(start, 0);
    assert(start.skip(0) =~= start);
    let t = merged(pending(start[0]) + tiles(start.skip(1)));
    assert(start.take(0) + t =~= t);
}

/// An empty cell is passed over.
proof fn lemma_pass_skips(start: Seq<nat>, now: Seq<nat>, pos: int, i: int)
    requires
        passed(start, now, pos, i),
        i < start.len(),
        now[i] == 0,
    ensures
        passed(start, now, pos, i + 1),
{
    lemma_tiles_from(start, i);
    assert(pending(start[i]) + tiles(start.skip(i + 1)) =~= tiles(start.skip(i + 1)));
}

/// A tile that equals the waiting tile merges into it; the sum is final, and it is the
/// cell at the cursor of the compacted line.
proof fn lemma_pass_merges(start: Seq<nat>, now: Seq<nat>, pos: int, i: int)
    requires
        passed(start, now, pos, i),
        i < start.len(),
        now[i] != 0,
        now[pos] == now[i],
    ensures
        compacted(start)[pos] == now[pos] + now[i],
        passed(start, now.update(pos, now[pos] + now[i]).update(i, 0), pos + 1, i + 1),
{
    let p = now[pos];
    let rest = tiles(start.skip(i + 1));
    let next = now.update(pos, p + p).update(i, 0);
    let m = merged(tiles(start));
    lemma_tiles_from(start, i);
    lemma_merged_step(p, p, rest);
    assert(pending(p) + (pending(p) + rest) =~= seq![p] + (seq![p] + rest));
    assert(m == now.take(pos) + (seq![p + p] + merged(rest)));
    assert(next.take(pos + 1) =~= now.take(pos) + seq![p + p]);
    assert(pending(next[pos + 1]) + rest =~= rest);
    assert(now.take(pos) + (seq![p + p] + merged(rest)) =~= next.take(pos + 1) + merged(rest));
    lemma_tiles_occupied(start);
    lemma_merged_fixed(tiles(start));
    assert(m[pos] == p + p);
}

/// A tile that finds the cursor's cell empty moves into it and waits there.
proof fn lemma_pass_places(start: Seq<nat>, now: Seq<nat>, pos: int, i: int)
    requires
        passed(start, now, pos, i),
        i < start.len(),
        now[i] != 0,
        now[pos] == 0,
    ensures
        passed(start, now.update(pos, now[i]).update(i, 0), pos, i + 1),
{
    let v = now[i];
    let rest = tiles(start.skip(i + 1));
    let next = now.update(pos, v).update(i, 0);
    lemma_tiles_from(start, i);
    assert(pending(0) + (pending(v) + rest) =~= pending(v) + rest);
    assert(next.take(pos) =~= now.take(pos));
}

/// A tile that differs from the waiting tile makes that one final and waits in the cell
/// behind it.
proof fn lemma_pass_advances(start: Seq<nat>, now: Seq<nat>, pos: int, i: int)
    requires
        passed(start, now, pos, i),
        i < start.len(),
        now[i] != 0,
        now[pos] != 0,
        now[pos] != now[i],
    ensures
        pos + 1 == i ==> passed(start, now, pos + 1, i + 1),
        pos + 1 < i ==> passed(start, now.update(pos + 1, now[i]).update(i, 0), pos + 1, i + 1),
{
    let p = now[pos];
    let v = now[i];
    let rest = tiles(start.skip(i + 1));
    let next = if pos + 1 == i {
        now
    } else {
        now.update(pos + 1, v).update(i, 0)
    };
    lemma_tiles_from(start, i);
    lemma_merged_step(p, v, rest);
    assert(pending(p) + (pending(v) + rest) =~= seq![p] + (seq![v] + rest));
    assert(pending(v) + rest =~= seq![v] + rest);
    assert(next.take(pos + 1) =~= now.take(pos) + seq![p]);
    assert(now.take(pos) + (seq![p] + merged(seq![v] + rest)) =~= next.take(pos + 1) + merged(
        seq![v] + rest,
    ));
}

/// When every cell has been read, the line is the compacted line.
proof fn lemma_pass_ends(start: Seq<nat>, now: Seq<nat>, pos: int)
    requires
        passed(start, now, pos, start.len() as int),
    ensures
        now == compacted(start),
{
    let n = start.len() as int;
    start.skip(n).lemma_filter_len(occupied());
    assert(pending(now[pos]) + tiles(start.skip(n)) =~= pending(now[pos]));
    assert(merged(tiles(start)) == now.take(pos) + pending(now[pos]));
    assert(now =~= compacted(start));
}

/// Slides the tiles of `stack` toward `dir`: every tile moves as far as it can, and two
/// equal tiles that meet become one tile of their sum, which does not merge again. The
/// sums have to fit into a cell; `slide_fits` tells whether they do.
pub fn slide(stack: &mut [u32], dir: MergeDir)
    requires
        fits(slid(weights(old(stack)@), dir)),
    ensures
        final(stack)@.len() == old(stack)@.len(),
        weights(final(stack)@) == slid(weights(old(stack)@), dir),
{
    if stack.len() == 0 {
        assert(weights(stack@) =~= slid(weights(stack@), dir));
        return ;
    }
    if dir == MergeDir::End {
        reverse(stack);
    }
    let ghost start = weights(stack@);
    let n: usize = stack.len();
    proof {
        if dir == MergeDir::End {
            assert(start =~= weights(old(stack)@).reverse());
            assert forall|k: int| 0 <= k < n implies #[trigger] compacted(start)[k]
                <= u32::MAX by {
                assert(compacted(start).reverse()[n - 1 - k] <= u32::MAX);
            }
        }
    }

    let mut pos: usize = 0;
    let mut i: usize = 0;
    while i < n
        invariant
            n > 0,
            stack@.len() == n,
            start.len() == n,
            fits(compacted(start)),
            i <= n,
            i == 0 ==> pos == 0 && weights(stack@) == start,
            i > 0 ==> passed(start, weights(stack@), pos as int, i as int),
        decreases n - i,
    {
        let ghost now = weights(stack@);
        if stack[i] == 0 || pos == i {
            proof {
                if i == 0 {
                    lemma_pass_begins(start);
                } else {
                    lemma_pass_skips(start, now, pos as int, i as int);
                }
            }
        } else {
            if stack[pos] == stack[i] {
                proof {
                    lemma_pass_merges(start, now, pos as int, i as int);
                }
                let sum: u32 = stack[pos] + stack[i];
                stack[pos] = sum;
                stack[i] = 0;
                assert(weights(stack@) =~= now.update(
                    pos as int,
                    now[pos as int] + now[i as int],
                ).update(i as int, 0));
                pos += 1;
            } else {
                let ghost from = pos;
                assert forall|k: int| from < k < i implies stack@[k] == 0 by {
                    assert(now[k] == 0);
                }
                while pos != i && stack[pos] != 0
                    invariant
                        stack@.len() == n,
                        i < n,
                        from < i,
                        from <= pos <= i,
                        pos == from || (pos == from + 1 && stack@[from as int] != 0),
                        forall|k: int| from < k < i ==> stack@[k] == 0,
                        stack@[i as int] != 0,
                    decreases i - pos,
                {
                    pos += 1;
                }
                proof {
                    if pos == from {
                        lemma_pass_places(start, now, pos as int, i as int);
                    } else {
                        lemma_pass_advances(start, now, from as int, i as int);
                    }
                }
                if pos != i {
                    let tile: u32 = stack[i];
                    stack[pos] = tile;
                    stack[i] = 0;
                    assert(weights(stack@) =~= now.update(pos as int, now[i as int]).update(
                        i as int,
                        0,
                    ));
                }
            }
        }
        i += 1;
    }
    proof {
        lemma_pass_ends(start, weights(stack@), pos as int);
    }
    if dir == MergeDir::End {
        let ghost packed = stack@;
        reverse(stack);
        assert(weights(stack@) =~= weights(packed).reverse());
    }
}

/// Tells whether a slide toward `dir` would change the line: whether a tile has an empty
/// cell in front of it, or an equal tile as its neighbour.
pub fn can_slide(stack: &[u32], dir: MergeDir) -> (changes: bool)
    ensures
        changes == (slid(weights(stack@), dir) != weights(stack@)),
{
    let n: usize = stack.len();
    let ghost line = facing(weights(stack@), dir);
    proof {
        lemma_slid_fixed(weights(stack@), dir);
    }
    let mut i: usize = 1;
    while i < n
        invariant
            1 <= i,
            n == stack@.len(),
            line == facing(weights(stack@), dir),
            slid(weights(stack@), dir) == weights(stack@) <==> settled(line),
            forall|k: int|
                0 < k < i && k < n ==> {
                    &&& line[k - 1] == 0 ==> #[trigger] line[k] == 0
                    &&& line[k - 1] != 0 ==> line[k - 1] != line[k]
                },
        decreases n - i,
    {
        let (before, current): (usize, usize) = if dir == MergeDir::Start {
            (i - 1, i)
        } else {
            (n - i, n - i - 1)
        };
        assert(stack@[before as int] == line[i - 1] && stack@[current as int] == line[i as int]);
        if stack[before] == 0 {
            let mut j: usize = i;
            while j < n
                invariant
                    1 <= i <= j,
                    i < n,
                    n == stack@.len(),
                    line == facing(weights(stack@), dir),
                    slid(weights(stack@), dir) == weights(stack@) <==> settled(line),
                    line[i - 1] == 0,
                    forall|k: int| i <= k < j ==> #[trigger] line[k] == 0,
                decreases n - j,
            {
                let current: usize = if dir == MergeDir::Start {
                    j
                } else {
                    n - j - 1
                };
                assert(stack@[current as int] == line[j as int]);
                if stack[current] != 0 {
                    proof {
                        if settled(line) {
                            lemma_settled_gap(line, i - 1, j as int);
                        }
                    }
                    return true;
                }
                j += 1;
            }
        } else if stack[before] == stack[current] {
            assert(!settled(line)) by {
                if settled(line) {
                    assert(line[i - 1] != line[i as int]);
                }
            }
            return true;
        }
        i += 1;
    }
    false
}

/// Tells whether every cell of the line could still be stored after a slide toward
/// `dir`: whether no two tiles that would merge have a sum above `u32::MAX`.
pub fn slide_fits(stack: &[u32], dir: MergeDir) -> (ok: bool)
    ensures
        ok == fits(slid(weights(stack@), dir)),
{
    let n: usize = stack.len();
    let ghost line = facing(weights(stack@), dir);
    let ghost mut done: Seq<nat> = Seq::empty();
    let mut waiting: u32 = 0;
    let mut i: usize = 0;
    proof {
        lemma_slid_fits(weights(stack@), dir);
        assert(line.skip(0) =~= line);
        assert(done + merged(pending(0) + tiles(line)) =~= merged(tiles(line))) by {
            assert(pending(0) + tiles(line) =~= tiles(line));
        }
    }
    while i < n
        invariant
            i <= n,
            n == stack@.len(),
            line == facing(weights(stack@), dir),
            fits(slid(weights(stack@), dir)) <==> fits(merged(tiles(line))),
            fits(done),
            merged(tiles(line)) == done + merged(
                pending(waiting as nat) + tiles(line.skip(i as int)),
            ),
        decreases n - i,
    {
        let place: usize = if dir == MergeDir::Start {
            i
        } else {
            n - 1 - i
        };
        let v: u32 = stack[place];
        let ghost rest = tiles(line.skip(i + 1));
        proof {
            assert(line[i as int] == v);
            lemma_tiles_from(line, i as int);
        }
        if v != 0 {
            if waiting == v {
                proof {
                    lemma_merged_step(v as nat, v as nat, rest);
                    let twice = (v + v) as nat;
                    assert(pending(v as nat) + (pending(v as nat) + rest) =~= seq![v as nat]
                        + (seq![v as nat] + rest));
                    assert(pending(0) + rest =~= rest);
                    assert(done + (seq![twice] + merged(rest)) =~= done.push(twice) + merged(
                        pending(0) + rest,
                    ));
                }
                if v > u32::MAX / 2 {
                    assert(merged(tiles(line))[done.len() as int] == v + v);
                    return false;
                }
                proof {
                    done = done.push((v + v) as nat);
                }
                waiting = 0;
            } else {
                proof {
                    if waiting != 0 {
                        lemma_merged_step(waiting as nat, v as nat, rest);
                        let w = waiting as nat;
                        let tail = seq![v as nat] + rest;
                        assert(pending(w) + (pending(v as nat) + rest) =~= seq![w] + tail);
                        assert(pending(v as nat) + rest =~= tail);
                        assert(done + (seq![w] + merged(tail)) =~= done.push(w) + merged(tail));
                        done = done.push(w);
                    } else {
                        assert(pending(0) + (pending(v as nat) + rest) =~= pending(v as nat)
                            + rest);
                    }
                }
                waiting = v;
            }
        } else {
            proof {
                assert(pending(0) + rest =~= rest);
            }
        }
        i += 1;
    }
    proof {
        line.skip(n as int).lemma_filter_len(occupied());
        assert(pending(waiting as nat) + tiles(line.skip(n as int)) =~= pending(waiting as nat));
    }
    true
}

} // verus!
