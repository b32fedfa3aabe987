//! Cleaning a grid by its regions: erasing the small ones, and keeping only the largest.

use crate::connectivity::{
    component, connected, is_region, is_region_list, joins, lemma_connected_same_component,
    lemma_path_carries_over, lemma_path_prefix, lemma_region_first, lemma_region_is_component,
    lemma_region_size, lemma_regions_disjoint, region_size,
};
use crate::matrix::{
    cell, holds, in_grid, is_addressable, is_rectangular, lemma_matrix_is_addressable,
    lemma_same_tiles_same_grid, lemma_shape_keeps_addressable, lemma_shape_keeps_rectangular,
    region_seqs, regions, same_shape, scans_before, tile, tiles, Grid, Matrix, Position,
};
use vstd::prelude::*;

verus! {

/// The tile at `p` once the small regions are erased: `fill` if `p` holds `value` in a
/// region of at most `threshold` cells, and the tile that was there otherwise.
pub open spec fn pruned_tile(g: Grid, value: u8, fill: u8, threshold: nat, p: Position) -> u8 {
    if tile(g, p) == value && region_size(g, value, p) <= threshold {
        fill
    } else {
        tile(g, p)
    }
}

/// `g` with every region of `value` that has at most `threshold` cells set to `fill`.
pub open spec fn pruned(g: Grid, value: u8, fill: u8, threshold: nat) -> Grid {
    Seq::new(
        g.len(),
        |i: int| Seq::new(g[i].len(), |j: int| pruned_tile(g, value, fill, threshold, cell(i, j))),
    )
}

/// `d` is the first cell, in scan order, among the cells whose region is the largest:
/// the first cell of the largest region, and of the one found first where several are
/// as large.
pub open spec fn is_dominant(g: Grid, value: u8, d: Position) -> bool {
    &&& holds(g, value, d)
    &&& forall|q: Position|
        #![trigger region_size(g, value, q)]
        holds(g, value, q) ==> {
            &&& region_size(g, value, q) <= region_size(g, value, d)
            &&& region_size(g, value, q) == region_size(g, value, d) ==> q == d || scans_before(d, q)
        }
}

/// The dominant cell, where there is one.
pub open spec fn dominant_cell(g: Grid, value: u8) -> Position {
    choose|d: Position| is_dominant(g, value, d)
}

/// `p` belongs to the region that is kept when only the largest one stays: the region
/// of the dominant cell.
pub open spec fn is_kept(g: Grid, value: u8, p: Position) -> bool {
    is_dominant(g, value, dominant_cell(g, value)) && connected(
        g,
        value,
        dominant_cell(g, value),
        p,
    )
}

/// The tile at `p` once only the largest region is left: `fill` if `p` holds `value`
/// outside that region, and the tile that was there otherwise.
pub open spec fn isolated_tile(g: Grid, value: u8, fill: u8, p: Position) -> u8 {
    if tile(g, p) == value && !is_kept(g, value, p) {
        fill
    } else {
        tile(g, p)
    }
}

/// `g` with every region of `value` but the largest set to `fill`.
pub open spec fn isolated(g: Grid, value: u8, fill: u8) -> Grid {
    Seq::new(
        g.len(),
        |i: int| Seq::new(g[i].len(), |j: int| isolated_tile(g, value, fill, cell(i, j))),
    )
}

/// `k` is the index of the first list that no other list exceeds in length.
pub open spec fn is_first_largest(rs: Seq<Seq<Position>>, k: int) -> bool {
    &&& 0 <= k < rs.len()
    &&& forall|a: int| 0 <= a < rs.len() ==> (#[trigger] rs[a]).len() <= rs[k].len()
    &&& forall|a: int| 0 <= a < k ==> (#[trigger] rs[a]).len() < rs[k].len()
}

/// The tile of a pruned grid at a position of the grid.
pub proof fn lemma_pruned_tile(g: Grid, value: u8, fill: u8, threshold: nat, p: Position)
    requires
        in_grid(g, p),
    ensures
        in_grid(pruned(g, value, fill, threshold), p),
        tile(pruned(g, value, fill, threshold), p) == pruned_tile(g, value, fill, threshold, p),
{
    assert(cell(p.row as int, p.col as int) == p);
}

/// The tile of an isolated grid at a position of the grid.
pub proof fn lemma_isolated_tile(g: Grid, value: u8, fill: u8, p: Position)
    requires
        in_grid(g, p),
    ensures
        in_grid(isolated(g, value, fill), p),
        tile(isolated(g, value, fill), p) == isolated_tile(g, value, fill, p),
{
    assert(cell(p.row as int, p.col as int) == p);
}

/// There is at most one dominant cell.
pub proof fn lemma_dominant_unique(g: Grid, value: u8, d: Position, e: Position)
    requires
        is_dominant(g, value, d),
        is_dominant(g, value, e),
    ensures
        d == e,
{
    assert(region_size(g, value, e) <= region_size(g, value, d));
    assert(region_size(g, value, d) <= region_size(g, value, e));
}

/// In a region list, the first cell of the first largest region is the dominant cell:
/// the cells of that region are kept, and the cells of every other region are not.
pub proof fn lemma_first_largest_is_kept(g: Grid, value: u8, rs: Seq<Seq<Position>>, b: int)
    requires
        is_region_list(g, value, rs),
        is_first_largest(rs, b),
    ensures
        is_dominant(g, value, rs[b][0]),
        dominant_cell(g, value) == rs[b][0],
        forall|a: int, p: Position|
            0 <= a < rs.len() && #[trigger] rs[a].contains(p) ==> (is_kept(g, value, p) <==> a
                == b),
{
    let d = rs[b][0];
    assert(is_region(g, value, rs[b]));
    lemma_region_first(g, value, rs[b]);
    lemma_region_size(g, value, rs[b], d);
    assert forall|q: Position| #![trigger region_size(g, value, q)] holds(g, value, q) implies {
        &&& region_size(g, value, q) <= region_size(g, value, d)
        &&& region_size(g, value, q) == region_size(g, value, d) ==> q == d || scans_before(d, q)
    } by {
        let a = choose|a: int| 0 <= a < rs.len() && #[trigger] rs[a].contains(q);
        assert(is_region(g, value, rs[a]));
        lemma_region_size(g, value, rs[a], q);
        assert(rs[a].len() <= rs[b].len());
        if rs[a].len() == rs[b].len() {
            assert(a >= b);
            if a > b {
                assert(scans_before(rs[b][0], rs[a][0]));
                assert(q == rs[a][0] || scans_before(rs[a][0], q));
            }
        }
    }
    assert(is_dominant(g, value, d));
    lemma_dominant_unique(g, value, d, dominant_cell(g, value));
    assert forall|a: int, p: Position| 0 <= a < rs.len() && #[trigger] rs[a].contains(p) implies (
    is_kept(g, value, p) <==> a == b) by {
        lemma_region_is_component(g, value, rs[b], d, p);
        if is_kept(g, value, p) {
            assert(rs[b].contains(p));
            lemma_regions_disjoint(g, value, rs, a, b, p);
        }
    }
}

/// The index of the first region that no other exceeds in length, if there is a region.
pub fn largest_region(regions: &Vec<Vec<Position>>) -> (best: Option<usize>)
    ensures
        best is None <==> regions@.len() == 0,
        best matches Some(k) ==> is_first_largest(region_seqs(regions), k as int),
{
    if regions.len() == 0 {
        return None;
    }
    let ghost rs = region_seqs(regions);
    let mut best: usize = 0;
    let mut k: usize = 1;
    while k < regions.len()
        invariant
            1 <= k <= regions@.len(),
            rs == region_seqs(regions),
            best < k,
            forall|a: int| 0 <= a < k ==> (#[trigger] rs[a]).len() <= rs[best as int].len(),
            forall|a: int| 0 <= a < best ==> (#[trigger] rs[a]).len() < rs[best as int].len(),
        decreases regions@.len() - k,
    {
        if regions[k].len() > regions[best].len() {
            best = k;
        }
        k += 1;
    }
    Some(best)
}

/// Sets every cell that `region` lists to `fill`.
pub fn fill_region(matrix: &mut Matrix, region: &Vec<Position>, fill: u8)
    requires
        forall|p: Position| region@.contains(p) ==> in_grid(tiles(old(matrix)), p),
    ensures
        same_shape(tiles(final(matrix)), tiles(old(matrix))),
        forall|p: Position|
            #![trigger tile(tiles(final(matrix)), p)]
            in_grid(tiles(old(matrix)), p) ==> tile(tiles(final(matrix)), p) == (if region@.contains(
                p,
            ) {
                fill
            } else {
                tile(tiles(old(matrix)), p)
            }),
{
    let ghost before = tiles(matrix);
    let mut t: usize = 0;
    while t < region.len()
        invariant
            t <= region@.len(),
            matrix@.len() == before.len(),
            forall|p: Position| region@.contains(p) ==> in_grid(before, p),
            forall|k: int| 0 <= k < before.len() ==> (#[trigger] matrix@[k])@.len() == before[k].len(),
            forall|k: int, c: int|
                0 <= k < before.len() && 0 <= c < before[k].len() ==> (#[trigger] matrix@[k]@[c])
                    == (if exists|u: int| 0 <= u < t && region@[u] == cell(k, c) {
                    fill
                } else {
                    before[k][c]
                }),
        decreases region@.len() - t,
    {
        let pos = region[t];
        assert(region@.contains(pos));
        assert(in_grid(before, pos));
        let ghost current = matrix@;
        matrix[pos.row][pos.col] = fill;
        proof {
            assert forall|k: int, c: int|
                0 <= k < before.len() && 0 <= c < before[k].len() implies (#[trigger] matrix@[k]@[c])
                == (if exists|u: int| 0 <= u < t + 1 && region@[u] == cell(k, c) {
                fill
            } else {
                before[k][c]
            }) by {
                assert(k < matrix.len() && c < matrix@[k].len());
                if k == pos.row && c == pos.col {
                    assert(region@[t as int] == cell(k, c));
                } else {
                    assert(matrix@[k]@[c] == current[k]@[c]);
                    if exists|u: int| 0 <= u < t + 1 && region@[u] == cell(k, c) {
                        let u = choose|u: int| 0 <= u < t + 1 && region@[u] == cell(k, c);
                        assert(u < t);
                    }
                }
            }
        }
        t += 1;
    }
    proof {
        let after = tiles(matrix);
        assert forall|p: Position|
            #![trigger tile(after, p)]
            in_grid(before, p) implies tile(after, p) == (if region@.contains(p) {
            fill
        } else {
            tile(before, p)
        }) by {
            let k = p.row as int;
            let c = p.col as int;
            assert(cell(k, c) == p);
            assert(after[k][c] == matrix@[k]@[c]);
            if region@.contains(p) {
                let u = choose|u: int| 0 <= u < region@.len() && region@[u] == p;
                assert(0 <= u < t && region@[u] == cell(k, c));
            }
        }
    }
}

/// The cells of a listed region lie in every grid of the shape of the grid it is a
/// region of.
proof fn lemma_region_in_grid(g: Grid, h: Grid, value: u8, r: Seq<Position>)
    requires
        is_region(g, value, r),
        same_shape(h, g),
    ensures
        forall|p: Position| r.contains(p) ==> in_grid(h, p),
{
    assert forall|p: Position| r.contains(p) implies in_grid(h, p) by {
        lemma_region_is_component(g, value, r, p, p);
        assert(h[p.row as int].len() == g[p.row as int].len());
    }
}

/// One more region is dealt with: the cells of the flagged regions among the first
/// `k + 1` hold `fill`, and every other cell holds what it held at first.
proof fn lemma_filled_step(
    before: Grid,
    current: Grid,
    after: Grid,
    rs: Seq<Seq<Position>>,
    k: int,
    fill: u8,
    flagged: spec_fn(int) -> bool,
)
    requires
        0 <= k < rs.len(),
        same_shape(current, before),
        same_shape(after, current),
        forall|p: Position|
            #![trigger tile(current, p)]
            in_grid(before, p) ==> tile(current, p) == (if exists|a: int|
                0 <= a < k && flagged(a) && rs[a].contains(p) {
                fill
            } else {
                tile(before, p)
            }),
        flagged(k) ==> forall|p: Position|
            #![trigger tile(after, p)]
            in_grid(current, p) ==> tile(after, p) == (if rs[k].contains(p) {
                fill
            } else {
                tile(current, p)
            }),
        !flagged(k) ==> after == current,
    ensures
        same_shape(after, before),
        forall|p: Position|
            #![trigger tile(after, p)]
            in_grid(before, p) ==> tile(after, p) == (if exists|a: int|
                0 <= a < k + 1 && flagged(a) && rs[a].contains(p) {
                fill
            } else {
                tile(before, p)
            }),
{
    assert(same_shape(after, before)) by {
        assert forall|i: int| 0 <= i < after.len() implies (#[trigger] after[i]).len()
            == before[i].len() by {
            assert(current[i].len() == before[i].len());
        }
    }
    assert forall|p: Position| #![trigger tile(after, p)] in_grid(before, p) implies tile(after, p)
        == (if exists|a: int| 0 <= a < k + 1 && flagged(a) && rs[a].contains(p) {
        fill
    } else {
        tile(before, p)
    }) by {
        assert(current[p.row as int].len() == before[p.row as int].len());
        assert(in_grid(current, p));
        let was = exists|a: int| 0 <= a < k && flagged(a) && rs[a].contains(p);
        let is = exists|a: int| 0 <= a < k + 1 && flagged(a) && rs[a].contains(p);
        assert(tile(current, p) == (if was {
            fill
        } else {
            tile(before, p)
        }));
        if was {
            let a = choose|a: int| 0 <= a < k && flagged(a) && rs[a].contains(p);
            assert(0 <= a < k + 1 && flagged(a) && rs[a].contains(p));
        }
        if is && !was {
            let a = choose|a: int| 0 <= a < k + 1 && flagged(a) && rs[a].contains(p);
            assert(a == k);
        }
        if flagged(k) && rs[k].contains(p) {
            assert(0 <= k < k + 1 && flagged(k) && rs[k].contains(p));
        }
    }
}

/// Erasing the listed regions of at most `threshold` cells gives the pruned grid.
proof fn lemma_pruned_by_regions(
    before: Grid,
    after: Grid,
    value: u8,
    fill: u8,
    threshold: nat,
    rs: Seq<Seq<Position>>,
)
    requires
        is_region_list(before, value, rs),
        is_addressable(before),
        same_shape(after, before),
        forall|p: Position|
            #![trigger tile(after, p)]
            in_grid(before, p) ==> tile(after, p) == (if exists|a: int|
                0 <= a < rs.len() && rs[a].len() <= threshold && rs[a].contains(p) {
                fill
            } else {
                tile(before, p)
            }),
    ensures
        after == pruned(before, value, fill, threshold),
{
    let goal = pruned(before, value, fill, threshold);
    assert(same_shape(after, goal)) by {
        assert forall|i: int| 0 <= i < after.len() implies (#[trigger] after[i]).len()
            == goal[i].len() by {
            assert(after[i].len() == before[i].len());
        }
    }
    assert(is_addressable(after)) by {
        assert forall|i: int| 0 <= i < after.len() implies (#[trigger] after[i]).len()
            <= usize::MAX by {
            assert(after[i].len() == before[i].len());
        }
    }
    assert forall|p: Position| in_grid(after, p) implies #[trigger] tile(after, p) == tile(
        goal,
        p,
    ) by {
        assert(after[p.row as int].len() == before[p.row as int].len());
        lemma_pruned_tile(before, value, fill, threshold, p);
        if exists|a: int| 0 <= a < rs.len() && rs[a].len() <= threshold && rs[a].contains(p) {
            let a = choose|a: int|
                0 <= a < rs.len() && rs[a].len() <= threshold && rs[a].contains(p);
            assert(is_region(before, value, rs[a]));
            lemma_region_size(before, value, rs[a], p);
            lemma_region_is_component(before, value, rs[a], p, p);
        } else if holds(before, value, p) {
            let a = choose|a: int| 0 <= a < rs.len() && #[trigger] rs[a].contains(p);
            assert(is_region(before, value, rs[a]));
            lemma_region_size(before, value, rs[a], p);
        }
    }
    lemma_same_tiles_same_grid(after, goal);
}

/// Sets every region of `value` that has at most `threshold` cells to `fill`.
pub fn prune_small_regions(matrix: &mut Matrix, value: u8, fill: u8, threshold: usize)
    requires
        is_rectangular(tiles(old(matrix))),
    ensures
        tiles(final(matrix)) == pruned(tiles(old(matrix)), value, fill, threshold as nat),
        is_rectangular(tiles(final(matrix))),
{
    let ghost before = tiles(matrix);
    let found = regions(matrix, value);
    let ghost rs = region_seqs(&found);
    let mut k: usize = 0;
    while k < found.len()
        invariant
            k <= found@.len(),
            rs == region_seqs(&found),
            is_region_list(before, value, rs),
            same_shape(tiles(matrix), before),
            forall|p: Position|
                #![trigger tile(tiles(matrix), p)]
                in_grid(before, p) ==> tile(tiles(matrix), p) == (if exists|a: int|
                    0 <= a < k && rs[a].len() <= threshold && rs[a].contains(p) {
                    fill
                } else {
                    tile(before, p)
                }),
        decreases found@.len() - k,
    {
        let ghost current = tiles(matrix);
        assert(rs[k as int] == found@[k as int]@);
        if found[k].len() <= threshold {
            proof {
                lemma_region_in_grid(before, current, value, rs[k as int]);
            }
            fill_region(matrix, &found[k], fill);
        }
        proof {
            lemma_filled_step(
                before,
                current,
                tiles(matrix),
                rs,
                k as int,
                fill,
                |a: int| rs[a].len() <= threshold,
            );
        }
        k += 1;
    }
    proof {
        lemma_matrix_is_addressable(matrix);
        lemma_shape_keeps_addressable(tiles(matrix), before);
        lemma_pruned_by_regions(before, tiles(matrix), value, fill, threshold as nat, rs);
        lemma_shape_keeps_rectangular(before, tiles(matrix));
    }
}

/// A cell is erased by isolation exactly if it lies in a listed region other than the
/// first largest.
proof fn lemma_erased_by_isolation(
    g: Grid,
    value: u8,
    rs: Seq<Seq<Position>>,
    best: Option<usize>,
    p: Position,
)
    requires
        is_region_list(g, value, rs),
        rs.len() <= usize::MAX,
        best is None <==> rs.len() == 0,
        best matches Some(b) ==> is_first_largest(rs, b as int),
        in_grid(g, p),
    ensures
        (tile(g, p) == value && !is_kept(g, value, p)) <==> (exists|a: int|
            0 <= a < rs.len() && best != Some(a as usize) && rs[a].contains(p)),
{
    if let Some(b) = best {
        lemma_first_largest_is_kept(g, value, rs, b as int);
    }
    if exists|a: int| 0 <= a < rs.len() && best != Some(a as usize) && rs[a].contains(p) {
        let a = choose|a: int| 0 <= a < rs.len() && best != Some(a as usize) && rs[a].contains(p);
        assert(is_region(g, value, rs[a]));
        lemma_region_is_component(g, value, rs[a], p, p);
        assert(rs[a].contains(p));
        assert(!is_kept(g, value, p));
    }
    if tile(g, p) == value && !is_kept(g, value, p) {
        assert(holds(g, value, p));
        let a = choose|a: int| 0 <= a < rs.len() && #[trigger] rs[a].contains(p);
        assert(rs[a].contains(p));
        assert(best != Some(a as usize));
    }
}

/// Erasing every listed region but the first largest gives the isolated grid.
proof fn lemma_isolated_by_regions(
    before: Grid,
    after: Grid,
    value: u8,
    fill: u8,
    rs: Seq<Seq<Position>>,
    best: Option<usize>,
)
    requires
        is_region_list(before, value, rs),
        rs.len() <= usize::MAX,
        is_addressable(before),
        same_shape(after, before),
        best is None <==> rs.len() == 0,
        best matches Some(b) ==> is_first_largest(rs, b as int),
        forall|p: Position|
            #![trigger tile(after, p)]
            in_grid(before, p) ==> tile(after, p) == (if exists|a: int|
                0 <= a < rs.len() && best != Some(a as usize) && rs[a].contains(p) {
                fill
            } else {
                tile(before, p)
            }),
    ensures
        after == isolated(before, value, fill),
{
    let goal = isolated(before, value, fill);
    assert(same_shape(after, goal)) by {
        assert forall|i: int| 0 <= i < after.len() implies (#[trigger] after[i]).len()
            == goal[i].len() by {
            assert(after[i].len() == before[i].len());
        }
    }
    lemma_shape_keeps_addressable(before, after);
    assert forall|p: Position| in_grid(after, p) implies #[trigger] tile(after, p) == tile(
        goal,
        p,
    ) by {
        assert(after[p.row as int].len() == before[p.row as int].len());
        lemma_isolated_tile(before, value, fill, p);
        lemma_erased_by_isolation(before, value, rs, best, p);
    }
    lemma_same_tiles_same_grid(after, goal);
}

/// Sets every region of `value` to `fill` but the largest one; of several largest ones
/// the first in scan order stays. Where any cell holds `value` there is a largest
/// region, so that some cell is kept.
pub fn keep_largest_region(matrix: &mut Matrix, value: u8, fill: u8)
    requires
        is_rectangular(tiles(old(matrix))),
    ensures
        tiles(final(matrix)) == isolated(tiles(old(matrix)), value, fill),
        is_rectangular(tiles(final(matrix))),
        forall|p: Position|
            #![trigger holds(tiles(old(matrix)), value, p)]
            holds(tiles(old(matrix)), value, p) ==> is_dominant(
                tiles(old(matrix)),
                value,
                dominant_cell(tiles(old(matrix)), value),
            ),
{
    let ghost before = tiles(matrix);
    let found = regions(matrix, value);
    let ghost rs = region_seqs(&found);
    let best = largest_region(&found);
    proof {
        assert forall|p: Position| #![trigger holds(before, value, p)] holds(
            before,
            value,
            p,
        ) implies is_dominant(before, value, dominant_cell(before, value)) by {
            let a = choose|a: int| 0 <= a < rs.len() && #[trigger] rs[a].contains(p);
            lemma_first_largest_is_kept(before, value, rs, best->0 as int);
        }
    }
    let mut k: usize = 0;
    while k < found.len()
        invariant
            k <= found@.len(),
            rs == region_seqs(&found),
            is_region_list(before, value, rs),
            same_shape(tiles(matrix), before),
            forall|p: Position|
                #![trigger tile(tiles(matrix), p)]
                in_grid(before, p) ==> tile(tiles(matrix), p) == (if exists|a: int|
                    0 <= a < k && best != Some(a as usize) && rs[a].contains(p) {
                    fill
                } else {
                    tile(before, p)
                }),
        decreases found@.len() - k,
    {
        let ghost current = tiles(matrix);
        assert(rs[k as int] == found@[k as int]@);
        let stays: bool = match best {
            Some(b) => b == k,
            None => false,
        };
        if !stays {
            proof {
                lemma_region_in_grid(before, current, value, rs[k as int]);
            }
            fill_region(matrix, &found[k], fill);
        }
        proof {
            lemma_filled_step(
                before,
                current,
                tiles(matrix),
                rs,
                k as int,
                fill,
                |a: int| best != Some(a as usize),
            );
        }
        k += 1;
    }
    proof {
        lemma_matrix_is_addressable(matrix);
        lemma_shape_keeps_addressable(tiles(matrix), before);
        lemma_isolated_by_regions(before, tiles(matrix), value, fill, rs, best);
        lemma_shape_keeps_rectangular(before, tiles(matrix));
    }
}

/// A region of more than `threshold` cells comes through pruning cell for cell: each of
/// its cells keeps its tile, and where `fill` is another tile than `value` it is a
/// region of the pruned grid.
pub proof fn lemma_pruning_keeps_large_regions(
    g: Grid,
    value: u8,
    fill: u8,
    threshold: nat,
    p: Position,
)
    requires
        holds(g, value, p),
        region_size(g, value, p) > threshold,
    ensures
        holds(pruned(g, value, fill, threshold), value, p),
        fill != value ==> component(pruned(g, value, fill, threshold), value, p) == component(
            g,
            value,
            p,
        ),
{
    let h = pruned(g, value, fill, threshold);
    lemma_pruned_tile(g, value, fill, threshold, p);
    if fill != value {
        assert forall|q: Position| connected(h, value, p, q) <==> connected(g, value, p, q) by {
            if connected(h, value, p, q) {
                let path = choose|path: Seq<Position>| joins(h, value, path, p, q);
                assert forall|i: int| 0 <= i < path.len() implies holds(
                    g,
                    value,
                    #[trigger] path[i],
                ) by {
                    assert(holds(h, value, path[i]));
                    lemma_pruned_tile(g, value, fill, threshold, path[i]);
                }
                lemma_path_carries_over(h, g, value, value, path);
                assert(joins(g, value, path, p, q));
            }
            if connected(g, value, p, q) {
                let path = choose|path: Seq<Position>| joins(g, value, path, p, q);
                assert forall|i: int| 0 <= i < path.len() implies holds(
                    h,
                    value,
                    #[trigger] path[i],
                ) by {
                    assert(holds(g, value, path[i]));
                    lemma_path_prefix(g, value, path, i);
                    lemma_connected_same_component(g, value, p, path[i]);
                    lemma_pruned_tile(g, value, fill, threshold, path[i]);
                }
                lemma_path_carries_over(g, h, value, value, path);
                assert(joins(h, value, path, p, q));
            }
        }
        assert(component(h, value, p) =~= component(g, value, p));
    }
}

/// Where `fill` is another tile than `value`, every cell that holds `value` after
/// pruning held it before, in a region of more than `threshold` cells, and that region
/// is its region still: no region of `threshold` cells or fewer is left.
pub proof fn lemma_pruning_leaves_large_regions(
    g: Grid,
    value: u8,
    fill: u8,
    threshold: nat,
    p: Position,
)
    requires
        fill != value,
        holds(pruned(g, value, fill, threshold), value, p),
    ensures
        holds(g, value, p),
        region_size(g, value, p) > threshold,
        component(pruned(g, value, fill, threshold), value, p) == component(g, value, p),
        region_size(pruned(g, value, fill, threshold), value, p) > threshold,
{
    lemma_pruned_tile(g, value, fill, threshold, p);
    lemma_pruning_keeps_large_regions(g, value, fill, threshold, p);
}

} // verus!
