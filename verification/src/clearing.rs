//! What the two cleaning passes leave behind: once all regions of open ground but the
//! largest are closed and the small regions of rock are opened, the open ground is one
//! region.

use crate::connectivity::{
    adjacent, component, connected, is_closed, is_region, is_region_list, joins,
    lemma_closed_set_holds_connected, lemma_connected_holds, lemma_connected_refl,
    lemma_connected_same_component, lemma_connected_step, lemma_connected_sym,
    lemma_connected_trans, lemma_path_carries_over, lemma_path_prefix, lemma_region_first,
    lemma_region_is_component, lemma_regions_disjoint, region_size,
};
use crate::matrix::{holds, in_grid, is_binary, is_rectangular, tile, Grid, Position};
use crate::prune::{
    dominant_cell, is_kept, isolated, lemma_isolated_tile, lemma_pruned_tile, pruned,
};
use vstd::prelude::*;

verus! {

/// The cells that hold `value` form at most one region: any two of them are connected.
pub open spec fn is_connected(g: Grid, value: u8) -> bool {
    forall|p: Position, q: Position|
        holds(g, value, p) && holds(g, value, q) ==> #[trigger] connected(g, value, p, q)
}

/// A grid of the shape of `g` with the same tile in every cell. A walk over it is a walk
/// over the cells of `g`, whatever they hold.
pub open spec fn blank(g: Grid) -> Grid {
    Seq::new(g.len(), |i: int| Seq::new(g[i].len(), |j: int| 0u8))
}

/// How many steps lie between `p` and `q`.
pub open spec fn steps_between(p: Position, q: Position) -> int {
    (if p.row <= q.row {
        q.row - p.row
    } else {
        p.row - q.row
    }) + (if p.col <= q.col {
        q.col - p.col
    } else {
        p.col - q.col
    })
}

/// In a rectangular grid a walk leads from every cell to every other.
pub proof fn lemma_grid_hangs_together(g: Grid, p: Position, q: Position)
    requires
        is_rectangular(g),
        in_grid(g, p),
        in_grid(g, q),
    ensures
        connected(blank(g), 0, p, q),
    decreases steps_between(p, q),
{
    let b = blank(g);
    assert(g[p.row as int].len() == g[0].len());
    assert(g[q.row as int].len() == g[0].len());
    assert(holds(b, 0, p));
    assert(holds(b, 0, q));
    if p == q {
        lemma_connected_refl(b, 0, p);
    } else {
        let n = if p.row < q.row {
            Position { row: (p.row + 1) as usize, col: p.col }
        } else if p.row > q.row {
            Position { row: (p.row - 1) as usize, col: p.col }
        } else if p.col < q.col {
            Position { row: p.row, col: (p.col + 1) as usize }
        } else {
            Position { row: p.row, col: (p.col - 1) as usize }
        };
        assert(g[n.row as int].len() == g[0].len());
        assert(in_grid(g, n));
        assert(holds(b, 0, n));
        assert(adjacent(p, n));
        lemma_connected_step(b, 0, p, n);
        lemma_grid_hangs_together(g, n, q);
        lemma_connected_trans(b, 0, p, n, q);
    }
}

/// A set that holds one cell of a rectangular grid and not another has a cell with a
/// neighbour in the grid that it does not hold.
pub proof fn lemma_edge_of_set(g: Grid, s: Set<Position>, x: Position, y: Position) -> (edge: (
    Position,
    Position,
))
    requires
        is_rectangular(g),
        in_grid(g, x),
        in_grid(g, y),
        s.contains(x),
        !s.contains(y),
    ensures
        s.contains(edge.0),
        !s.contains(edge.1),
        in_grid(g, edge.1),
        adjacent(edge.0, edge.1),
{
    let b = blank(g);
    lemma_grid_hangs_together(g, x, y);
    if is_closed(b, 0, s) {
        lemma_closed_set_holds_connected(b, 0, s, x, y);
    }
    let (a, c) = choose|a: Position, c: Position|
        #![trigger s.contains(a), adjacent(a, c)]
        s.contains(a) && holds(b, 0, c) && adjacent(a, c) && !s.contains(c);
    (a, c)
}

/// The cells that hold `value` once only the largest region is left are the cells of
/// that region.
pub proof fn lemma_isolated_holds(g: Grid, value: u8, fill: u8, p: Position)
    requires
        value != fill,
    ensures
        holds(isolated(g, value, fill), value, p) <==> holds(g, value, p) && is_kept(g, value, p),
        in_grid(isolated(g, value, fill), p) <==> in_grid(g, p),
        holds(isolated(g, value, fill), fill, p) <==> in_grid(g, p) && (tile(g, p) == fill
            || (tile(g, p) == value && !is_kept(g, value, p))),
{
    if in_grid(g, p) {
        lemma_isolated_tile(g, value, fill, p);
    }
}

/// Once only the largest region is left, the cells that hold `value` are connected.
pub proof fn lemma_isolated_is_connected(g: Grid, value: u8, fill: u8)
    requires
        value != fill,
    ensures
        is_connected(isolated(g, value, fill), value),
{
    let h = isolated(g, value, fill);
    let d = dominant_cell(g, value);
    assert forall|p: Position, q: Position| holds(h, value, p) && holds(h, value, q) implies #[trigger] connected(
        h,
        value,
        p,
        q,
    ) by {
        lemma_isolated_holds(g, value, fill, p);
        lemma_isolated_holds(g, value, fill, q);
        lemma_connected_sym(g, value, d, p);
        lemma_connected_trans(g, value, p, d, q);
        let path = choose|path: Seq<Position>| joins(g, value, path, p, q);
        assert forall|i: int| 0 <= i < path.len() implies holds(h, value, #[trigger] path[i]) by {
            lemma_path_prefix(g, value, path, i);
            lemma_connected_trans(g, value, d, p, path[i]);
            lemma_isolated_holds(g, value, fill, path[i]);
        }
        lemma_path_carries_over(g, h, value, value, path);
        assert(joins(h, value, path, p, q));
    }
}

/// What pruning does to the cells of a grid: a cell that held `fill` holds it still, and
/// a cell holds `fill` afterwards if it held it before or held `value` in a small region.
pub proof fn lemma_pruned_holds(g: Grid, value: u8, fill: u8, threshold: nat, p: Position)
    requires
        value != fill,
    ensures
        in_grid(pruned(g, value, fill, threshold), p) <==> in_grid(g, p),
        holds(pruned(g, value, fill, threshold), fill, p) <==> holds(g, fill, p) || (holds(
            g,
            value,
            p,
        ) && region_size(g, value, p) <= threshold),
{
    if in_grid(g, p) {
        lemma_pruned_tile(g, value, fill, threshold, p);
    }
}

/// A walk over cells that hold `fill` is still one after pruning.
pub proof fn lemma_pruning_keeps_connections(
    g: Grid,
    value: u8,
    fill: u8,
    threshold: nat,
    p: Position,
    q: Position,
)
    requires
        value != fill,
        connected(g, fill, p, q),
    ensures
        connected(pruned(g, value, fill, threshold), fill, p, q),
{
    let h = pruned(g, value, fill, threshold);
    let path = choose|path: Seq<Position>| joins(g, fill, path, p, q);
    assert forall|i: int| 0 <= i < path.len() implies holds(h, fill, #[trigger] path[i]) by {
        assert(holds(g, fill, path[i]));
        lemma_pruned_holds(g, value, fill, threshold, path[i]);
    }
    lemma_path_carries_over(g, h, fill, fill, path);
    assert(joins(h, fill, path, p, q));
}

/// The cells of a small region hold `fill` after pruning and are connected there.
pub proof fn lemma_pruned_region_is_connected(
    g: Grid,
    value: u8,
    fill: u8,
    threshold: nat,
    p: Position,
    q: Position,
)
    requires
        value != fill,
        connected(g, value, p, q),
        region_size(g, value, p) <= threshold,
    ensures
        connected(pruned(g, value, fill, threshold), fill, p, q),
{
    let h = pruned(g, value, fill, threshold);
    let path = choose|path: Seq<Position>| joins(g, value, path, p, q);
    assert forall|i: int| 0 <= i < path.len() implies holds(h, fill, #[trigger] path[i]) by {
        assert(holds(g, value, path[i]));
        lemma_path_prefix(g, value, path, i);
        lemma_connected_same_component(g, value, p, path[i]);
        lemma_pruned_holds(g, value, fill, threshold, path[i]);
    }
    lemma_path_carries_over(g, h, value, fill, path);
    assert(joins(h, fill, path, p, q));
}

/// In a grid of two tiles, a cell of a small region is connected after pruning to a cell
/// that held `fill` before, if there was such a cell.
pub proof fn lemma_pruned_region_reaches_out(
    g: Grid,
    value: u8,
    fill: u8,
    threshold: nat,
    x: Position,
    y: Position,
) -> (b: Position)
    requires
        value != fill,
        is_rectangular(g),
        is_binary(g, value, fill),
        holds(g, value, x),
        region_size(g, value, x) <= threshold,
        holds(g, fill, y),
    ensures
        holds(g, fill, b),
        connected(pruned(g, value, fill, threshold), fill, x, b),
{
    let h = pruned(g, value, fill, threshold);
    let s = component(g, value, x);
    lemma_connected_refl(g, value, x);
    if s.contains(y) {
        lemma_connected_holds(g, value, x, y);
    }
    let edge = lemma_edge_of_set(g, s, x, y);
    let a = edge.0;
    let b = edge.1;
    assert(connected(g, value, x, a));
    lemma_connected_holds(g, value, x, a);
    assert(g[b.row as int][b.col as int] == value || g[b.row as int][b.col as int] == fill);
    if tile(g, b) == value {
        lemma_connected_step(g, value, a, b);
        lemma_connected_trans(g, value, x, a, b);
    }
    assert(holds(g, fill, b));
    lemma_pruned_region_is_connected(g, value, fill, threshold, x, a);
    lemma_connected_holds(h, fill, x, a);
    lemma_pruned_holds(g, value, fill, threshold, b);
    lemma_connected_step(h, fill, a, b);
    lemma_connected_trans(h, fill, x, a, b);
    b
}

/// In a grid of two tiles in which no cell holds `fill`, all cells are one region.
pub proof fn lemma_full_grid_is_connected(g: Grid, value: u8, fill: u8, x: Position, y: Position)
    requires
        value != fill,
        is_rectangular(g),
        is_binary(g, value, fill),
        forall|p: Position| !holds(g, fill, p),
        in_grid(g, x),
        in_grid(g, y),
    ensures
        connected(g, value, x, y),
{
    let s = component(g, value, x);
    assert(g[x.row as int][x.col as int] == value || g[x.row as int][x.col as int] == fill);
    assert(holds(g, value, x)) by {
        assert(!holds(g, fill, x));
    }
    lemma_connected_refl(g, value, x);
    if !s.contains(y) {
        let edge = lemma_edge_of_set(g, s, x, y);
        let a = edge.0;
        let b = edge.1;
        assert(g[b.row as int][b.col as int] == value || g[b.row as int][b.col as int] == fill);
        assert(!holds(g, fill, b));
        lemma_connected_holds(g, value, x, a);
        lemma_connected_step(g, value, a, b);
        lemma_connected_trans(g, value, x, a, b);
    }
}

/// In a rectangular grid of two tiles, pruning the small regions of one tile leaves the
/// cells of the other tile connected if they were connected before.
pub proof fn lemma_pruning_keeps_connected(g: Grid, value: u8, fill: u8, threshold: nat)
    requires
        value != fill,
        is_rectangular(g),
        is_binary(g, value, fill),
        is_connected(g, fill),
    ensures
        is_connected(pruned(g, value, fill, threshold), fill),
{
    let h = pruned(g, value, fill, threshold);
    assert forall|p: Position, q: Position| holds(h, fill, p) && holds(h, fill, q) implies #[trigger] connected(
        h,
        fill,
        p,
        q,
    ) by {
        lemma_pruned_holds(g, value, fill, threshold, p);
        lemma_pruned_holds(g, value, fill, threshold, q);
        if exists|y: Position| holds(g, fill, y) {
            let y = choose|y: Position| holds(g, fill, y);
            let pp = if holds(g, fill, p) {
                lemma_connected_refl(h, fill, p);
                p
            } else {
                lemma_pruned_region_reaches_out(g, value, fill, threshold, p, y)
            };
            let qq = if holds(g, fill, q) {
                lemma_connected_refl(h, fill, q);
                q
            } else {
                lemma_pruned_region_reaches_out(g, value, fill, threshold, q, y)
            };
            assert(connected(g, fill, pp, qq));
            lemma_pruning_keeps_connections(g, value, fill, threshold, pp, qq);
            lemma_connected_sym(h, fill, q, qq);
            lemma_connected_trans(h, fill, p, pp, qq);
            lemma_connected_trans(h, fill, p, qq, q);
        } else {
            lemma_full_grid_is_connected(g, value, fill, p, q);
            lemma_pruned_region_is_connected(g, value, fill, threshold, p, q);
        }
    }
}

/// In a rectangular grid of open ground and rock, closing every region of open ground
/// but the largest and then opening the regions of rock of at most `threshold` cells
/// leaves the open ground in one piece, and the largest region is part of it.
pub proof fn lemma_cleaning_leaves_one_region(g: Grid, open: u8, rock: u8, threshold: nat)
    requires
        open != rock,
        is_rectangular(g),
        is_binary(g, open, rock),
    ensures
        is_connected(pruned(isolated(g, open, rock), rock, open, threshold), open),
        forall|p: Position|
            holds(g, open, p) && is_kept(g, open, p) ==> #[trigger] holds(
                pruned(isolated(g, open, rock), rock, open, threshold),
                open,
                p,
            ),
{
    let h = isolated(g, open, rock);
    lemma_isolated_is_connected(g, open, rock);
    assert(is_rectangular(h)) by {
        assert forall|i: int| 0 <= i < h.len() implies (#[trigger] h[i]).len() == h[0].len() by {
            assert(g[i].len() == g[0].len());
        }
    }
    assert(is_binary(h, rock, open)) by {
        assert forall|i: int, j: int| 0 <= i < h.len() && 0 <= j < h[i].len() implies #[trigger] h[i][j]
            == rock || h[i][j] == open by {
            assert(g[i][j] == open || g[i][j] == rock);
        }
    }
    lemma_pruning_keeps_connected(h, rock, open, threshold);
    assert forall|p: Position| holds(g, open, p) && is_kept(g, open, p) implies #[trigger] holds(
        pruned(h, rock, open, threshold),
        open,
        p,
    ) by {
        lemma_isolated_holds(g, open, rock, p);
        lemma_pruned_holds(h, rock, open, threshold, p);
    }
}

/// Where no region of rock is small enough to be opened, the cleaning leaves exactly the
/// largest region of open ground open.
pub proof fn lemma_cleaning_without_small_rock(
    g: Grid,
    open: u8,
    rock: u8,
    threshold: nat,
    p: Position,
)
    requires
        open != rock,
        forall|q: Position|
            #![trigger region_size(isolated(g, open, rock), rock, q)]
            holds(isolated(g, open, rock), rock, q) ==> region_size(
                isolated(g, open, rock),
                rock,
                q,
            ) > threshold,
    ensures
        holds(pruned(isolated(g, open, rock), rock, open, threshold), open, p) <==> holds(
            g,
            open,
            p,
        ) && is_kept(g, open, p),
{
    let h = isolated(g, open, rock);
    lemma_isolated_holds(g, open, rock, p);
    lemma_pruned_holds(h, rock, open, threshold, p);
    if holds(h, rock, p) {
        assert(region_size(h, rock, p) > threshold);
    }
}

/// Where the cells that hold `value` are connected, a region list has one region if
/// any cell holds `value`, and none if no cell does.
pub proof fn lemma_connected_has_one_region(g: Grid, value: u8, rs: Seq<Seq<Position>>)
    requires
        is_region_list(g, value, rs),
        is_connected(g, value),
    ensures
        rs.len() <= 1,
        rs.len() == 1 <==> exists|p: Position| holds(g, value, p),
{
    if rs.len() >= 2 {
        assert(is_region(g, value, rs[0]) && is_region(g, value, rs[1]));
        lemma_region_first(g, value, rs[0]);
        lemma_region_first(g, value, rs[1]);
        assert(connected(g, value, rs[0][0], rs[1][0]));
        lemma_region_is_component(g, value, rs[0], rs[0][0], rs[1][0]);
        lemma_regions_disjoint(g, value, rs, 0, 1, rs[1][0]);
    }
    if rs.len() == 1 {
        assert(is_region(g, value, rs[0]));
        lemma_region_first(g, value, rs[0]);
    }
    if exists|p: Position| holds(g, value, p) {
        let p = choose|p: Position| holds(g, value, p);
        let k = choose|k: int| 0 <= k < rs.len() && #[trigger] rs[k].contains(p);
    }
}

} // verus!
