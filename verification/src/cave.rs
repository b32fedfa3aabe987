//! What a cave is: a grid of the generator's extent that holds floor and wall only, and
//! what the passes of the generator keep of it.

use crate::connectivity::{
    adjacent, lemma_connected_same_component, lemma_connected_step, lemma_connected_trans,
    lemma_region_of_four, region_size,
};
use crate::generator::{MATRIX_COLS, MATRIX_ROWS, REGION_THRESHOLD, TILE_FLOOR, TILE_WALL};
use crate::matrix::{
    cell, holds, in_grid, is_noise, is_rectangular, on_border, smoothed, with_borders, Grid,
    Position,
};
use crate::prune::{isolated, pruned};
use vstd::prelude::*;

verus! {

/// `g` has the extent of a generator's grid and holds floor and wall tiles only.
pub open spec fn is_cave(g: Grid) -> bool {
    &&& g.len() == MATRIX_ROWS
    &&& forall|i: int| 0 <= i < g.len() ==> (#[trigger] g[i]).len() == MATRIX_COLS
    &&& forall|i: int, j: int|
        0 <= i < g.len() && 0 <= j < g[i].len() ==> #[trigger] g[i][j] == TILE_FLOOR || g[i][j]
            == TILE_WALL
}

/// The outer ring of `g` holds wall tiles.
pub open spec fn is_walled(g: Grid) -> bool {
    forall|i: int, j: int|
        0 <= i < g.len() && 0 <= j < g[i].len() && on_border(g, i, j) ==> #[trigger] g[i][j]
            == TILE_WALL
}

/// `g` after `n` majority passes.
pub open spec fn smoothed_times(g: Grid, on: u8, off: u8, n: nat) -> Grid
    decreases n,
{
    if n == 0 {
        g
    } else {
        smoothed(smoothed_times(g, on, off, (n - 1) as nat), on, off)
    }
}

/// `g` is what some noise of the given density becomes once its outer ring is walled
/// and `iterations` majority passes have run over it.
pub open spec fn is_generated(g: Grid, noise_density: u8, iterations: nat) -> bool {
    exists|noise: Grid|
        {
            &&& is_cave(noise)
            &&& is_noise(noise, noise_density, TILE_WALL, TILE_FLOOR)
            &&& g == #[trigger] smoothed_times(
                with_borders(noise, TILE_WALL),
                TILE_WALL,
                TILE_FLOOR,
                iterations,
            )
        }
}

/// `g` with only its largest floor region left open, and then without its small wall
/// regions.
pub open spec fn cleaned(g: Grid) -> Grid {
    pruned(isolated(g, TILE_FLOOR, TILE_WALL), TILE_WALL, TILE_FLOOR, REGION_THRESHOLD as nat)
}

/// `g` is what a generated cave becomes once it is cleaned.
pub open spec fn is_cleaned(g: Grid, noise_density: u8, iterations: nat) -> bool {
    exists|shaped: Grid| #[trigger]
        is_generated(shaped, noise_density, iterations) && g == cleaned(shaped)
}

/// Walling the outer ring of a cave gives a cave with a walled outer ring.
pub proof fn lemma_walled_cave(g: Grid)
    requires
        is_cave(g),
    ensures
        is_cave(with_borders(g, TILE_WALL)),
        is_walled(with_borders(g, TILE_WALL)),
{
    let w = with_borders(g, TILE_WALL);
    assert forall|i: int, j: int| 0 <= i < w.len() && 0 <= j < w[i].len() implies #[trigger] w[i][j]
        == TILE_FLOOR || w[i][j] == TILE_WALL by {
        assert(g[i][j] == TILE_FLOOR || g[i][j] == TILE_WALL);
    }
}

/// A majority pass over floor and wall leaves a cave a cave.
pub proof fn lemma_smoothed_cave(g: Grid)
    requires
        is_cave(g),
    ensures
        is_cave(smoothed(g, TILE_WALL, TILE_FLOOR)),
{
    let s = smoothed(g, TILE_WALL, TILE_FLOOR);
    assert forall|i: int, j: int| 0 <= i < s.len() && 0 <= j < s[i].len() implies #[trigger] s[i][j]
        == TILE_FLOOR || s[i][j] == TILE_WALL by {
        assert(g[i][j] == TILE_FLOOR || g[i][j] == TILE_WALL);
    }
}

/// A majority pass leaves the outer ring of a cave as it is.
pub proof fn lemma_smoothed_walled(g: Grid)
    requires
        is_cave(g),
        is_walled(g),
    ensures
        is_walled(smoothed(g, TILE_WALL, TILE_FLOOR)),
{
    let s = smoothed(g, TILE_WALL, TILE_FLOOR);
    assert forall|i: int, j: int|
        0 <= i < s.len() && 0 <= j < s[i].len() && on_border(s, i, j) implies #[trigger] s[i][j]
        == TILE_WALL by {
        assert(g[i].len() == MATRIX_COLS && g[0].len() == MATRIX_COLS);
        assert(on_border(g, i, j));
        assert(g[i][j] == TILE_WALL);
    }
}

/// Any number of majority passes leaves a cave a cave, and its outer ring as it is.
pub proof fn lemma_smoothed_times_cave(g: Grid, n: nat)
    requires
        is_cave(g),
    ensures
        is_cave(smoothed_times(g, TILE_WALL, TILE_FLOOR, n)),
        is_walled(g) ==> is_walled(smoothed_times(g, TILE_WALL, TILE_FLOOR, n)),
    decreases n,
{
    if n > 0 {
        let before = smoothed_times(g, TILE_WALL, TILE_FLOOR, (n - 1) as nat);
        lemma_smoothed_times_cave(g, (n - 1) as nat);
        lemma_smoothed_cave(before);
        if is_walled(g) {
            lemma_smoothed_walled(before);
        }
    }
}

/// Keeping only the largest floor region of a cave gives a cave.
pub proof fn lemma_isolated_cave(g: Grid)
    requires
        is_cave(g),
    ensures
        is_cave(isolated(g, TILE_FLOOR, TILE_WALL)),
{
    let h = isolated(g, TILE_FLOOR, TILE_WALL);
    assert forall|i: int, j: int| 0 <= i < h.len() && 0 <= j < h[i].len() implies #[trigger] h[i][j]
        == TILE_FLOOR || h[i][j] == TILE_WALL by {
        assert(g[i][j] == TILE_FLOOR || g[i][j] == TILE_WALL);
    }
}

/// Pruning the small wall regions of a cave gives a cave.
pub proof fn lemma_pruned_cave(g: Grid, threshold: nat)
    requires
        is_cave(g),
    ensures
        is_cave(pruned(g, TILE_WALL, TILE_FLOOR, threshold)),
{
    let h = pruned(g, TILE_WALL, TILE_FLOOR, threshold);
    assert forall|i: int, j: int| 0 <= i < h.len() && 0 <= j < h[i].len() implies #[trigger] h[i][j]
        == TILE_FLOOR || h[i][j] == TILE_WALL by {
        assert(g[i][j] == TILE_FLOOR || g[i][j] == TILE_WALL);
    }
}

/// Four cells in a line that hold `value` lie in a region of four cells at least.
proof fn lemma_line_of_four(
    g: Grid,
    value: u8,
    a: Position,
    b: Position,
    c: Position,
    d: Position,
)
    requires
        is_rectangular(g),
        holds(g, value, a) && holds(g, value, b) && holds(g, value, c) && holds(g, value, d),
        adjacent(a, b) && adjacent(b, c) && adjacent(c, d),
        a != c && a != d && b != d,
    ensures
        region_size(g, value, a) >= 4,
        region_size(g, value, b) >= 4,
        region_size(g, value, c) >= 4,
        region_size(g, value, d) >= 4,
{
    lemma_connected_step(g, value, a, b);
    lemma_connected_step(g, value, b, c);
    lemma_connected_step(g, value, c, d);
    lemma_connected_trans(g, value, a, b, c);
    lemma_connected_trans(g, value, a, c, d);
    lemma_region_of_four(g, value, a, b, c, d);
    lemma_connected_same_component(g, value, a, b);
    lemma_connected_same_component(g, value, a, c);
    lemma_connected_same_component(g, value, a, d);
}

/// In a cave with a walled outer ring, a cell of the ring lies in a wall region of four
/// cells at least.
pub proof fn lemma_ring_is_large(g: Grid, p: Position)
    requires
        is_cave(g),
        is_walled(g),
        in_grid(g, p),
        on_border(g, p.row as int, p.col as int),
    ensures
        region_size(g, TILE_WALL, p) >= 4,
{
    let i = p.row as int;
    let j = p.col as int;
    assert(g[i].len() == MATRIX_COLS);
    if i == 0 || i == MATRIX_ROWS - 1 {
        let first = if j <= MATRIX_COLS - 4 {
            j
        } else {
            MATRIX_COLS - 4
        };
        let a = cell(i, first);
        let b = cell(i, first + 1);
        let c = cell(i, first + 2);
        let d = cell(i, first + 3);
        assert(g[i][first] == TILE_WALL && g[i][first + 1] == TILE_WALL && g[i][first + 2]
            == TILE_WALL && g[i][first + 3] == TILE_WALL);
        lemma_line_of_four(g, TILE_WALL, a, b, c, d);
        assert(p == a || p == b || p == c || p == d);
    } else {
        let first = if i <= MATRIX_ROWS - 4 {
            i
        } else {
            MATRIX_ROWS - 4
        };
        let a = cell(first, j);
        let b = cell(first + 1, j);
        let c = cell(first + 2, j);
        let d = cell(first + 3, j);
        assert(g[first].len() == MATRIX_COLS && g[first + 1].len() == MATRIX_COLS && g[first
            + 2].len() == MATRIX_COLS && g[first + 3].len() == MATRIX_COLS);
        assert(g[first][j] == TILE_WALL && g[first + 1][j] == TILE_WALL && g[first + 2][j]
            == TILE_WALL && g[first + 3][j] == TILE_WALL);
        lemma_line_of_four(g, TILE_WALL, a, b, c, d);
        assert(p == a || p == b || p == c || p == d);
    }
}

/// Keeping only the largest floor region leaves a walled outer ring walled.
pub proof fn lemma_isolated_stays_walled(g: Grid)
    requires
        is_cave(g),
        is_walled(g),
    ensures
        is_walled(isolated(g, TILE_FLOOR, TILE_WALL)),
{
    let h = isolated(g, TILE_FLOOR, TILE_WALL);
    assert forall|i: int, j: int|
        0 <= i < h.len() && 0 <= j < h[i].len() && on_border(h, i, j) implies #[trigger] h[i][j]
        == TILE_WALL by {
        assert(on_border(g, i, j));
        assert(g[i][j] == TILE_WALL);
    }
}

/// Pruning wall regions of at most `REGION_THRESHOLD` cells leaves a walled outer ring
/// walled.
pub proof fn lemma_pruned_stays_walled(g: Grid, threshold: nat)
    requires
        is_cave(g),
        is_walled(g),
        threshold <= REGION_THRESHOLD,
    ensures
        is_walled(pruned(g, TILE_WALL, TILE_FLOOR, threshold)),
{
    let h = pruned(g, TILE_WALL, TILE_FLOOR, threshold);
    assert forall|i: int, j: int|
        0 <= i < h.len() && 0 <= j < h[i].len() && on_border(h, i, j) implies #[trigger] h[i][j]
        == TILE_WALL by {
        assert(on_border(g, i, j));
        assert(g[i][j] == TILE_WALL);
        lemma_ring_is_large(g, cell(i, j));
    }
}

} // verus!
