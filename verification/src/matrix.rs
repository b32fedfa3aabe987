//! The tile grid and the passes that seed, shape and analyse it.

use crate::connectivity::{is_partition, is_region_list, lemma_region_list_is_partition};
use crate::flood::{
    blank_table, covers, flood_fill, lemma_scan_done, lemma_scan_next_row, lemma_scan_passes,
    lemma_scan_starts, lemma_scan_takes, marks, scan_state,
};
use rand::rngs::ThreadRng;
use rand::Rng;
use vstd::prelude::*;

verus! {

/// A rectangular buffer of tiles, addressed as `matrix[row][col]`.
pub type Matrix = Vec<Vec<u8>>;

/// The mathematical model of a [`Matrix`]: a sequence of rows of tiles.
pub type Grid = Seq<Seq<u8>>;

/// A cell coordinate. It only locates a cell; it owns no grid data.
#[derive(Default, Copy, Clone, Hash, PartialEq, Eq, PartialOrd, Ord, Structural, Debug)]
pub struct Position {
    pub row: usize,
    pub col: usize,
}

/// The extent of a grid.
#[derive(Default, Copy, Clone, Debug)]
pub struct Dimension {
    pub rows: usize,
    pub cols: usize,
}

/// The grid that a matrix holds.
pub open spec fn tiles(matrix: &Matrix) -> Grid {
    Seq::new(matrix@.len(), |i: int| matrix@[i]@)
}

/// Every row is as long as the first one.
pub open spec fn is_rectangular(g: Grid) -> bool {
    forall|i: int| 0 <= i < g.len() ==> (#[trigger] g[i]).len() == g[0].len()
}

/// The grid has no row, or its rows have no cell.
pub open spec fn is_degenerate(g: Grid) -> bool {
    g.len() == 0 || g[0].len() == 0
}

/// Every row holds at least one cell, and there is at least one row.
pub open spec fn has_cells(g: Grid) -> bool {
    &&& g.len() >= 1
    &&& forall|i: int| 0 <= i < g.len() ==> (#[trigger] g[i]).len() >= 1
}

/// `p` addresses a cell of `g`.
pub open spec fn in_grid(g: Grid, p: Position) -> bool {
    p.row < g.len() && p.col < g[p.row as int].len()
}

/// The tile at `p`.
pub open spec fn tile(g: Grid, p: Position) -> u8 {
    g[p.row as int][p.col as int]
}

/// `p` addresses a cell of `g` that holds `value`.
pub open spec fn holds(g: Grid, value: u8, p: Position) -> bool {
    in_grid(g, p) && tile(g, p) == value
}

/// `p` comes before `q` when the grid is read row by row.
pub open spec fn scans_before(p: Position, q: Position) -> bool {
    p.row < q.row || (p.row == q.row && p.col < q.col)
}

/// The position of the cell at (`i`, `j`).
pub open spec fn cell(i: int, j: int) -> Position {
    Position { row: i as usize, col: j as usize }
}

/// `a` and `b` have as many rows, and each row as many cells.
pub open spec fn same_shape(a: Grid, b: Grid) -> bool {
    &&& a.len() == b.len()
    &&& forall|i: int| 0 <= i < a.len() ==> (#[trigger] a[i]).len() == b[i].len()
}

/// The grid fits the range of positions: no more rows or columns than `usize` counts.
pub open spec fn is_addressable(g: Grid) -> bool {
    &&& g.len() <= usize::MAX
    &&& forall|i: int| 0 <= i < g.len() ==> (#[trigger] g[i]).len() <= usize::MAX
}

/// A matrix holds an addressable grid.
pub proof fn lemma_matrix_is_addressable(matrix: &Matrix)
    ensures
        is_addressable(tiles(matrix)),
{
    let g = tiles(matrix);
    assert(g.len() == matrix.len());
    assert forall|i: int| 0 <= i < g.len() implies (#[trigger] g[i]).len() <= usize::MAX by {
        assert(g[i].len() == matrix@[i].len());
    }
}

/// A grid of the shape of an addressable grid is addressable.
pub proof fn lemma_shape_keeps_addressable(g: Grid, h: Grid)
    requires
        is_addressable(g),
        same_shape(g, h),
    ensures
        is_addressable(h),
{
    assert forall|i: int| 0 <= i < h.len() implies (#[trigger] h[i]).len() <= usize::MAX by {
        assert(g[i].len() == h[i].len());
    }
}

/// A grid of the shape of a rectangular grid is rectangular.
pub proof fn lemma_shape_keeps_rectangular(g: Grid, h: Grid)
    requires
        is_rectangular(g),
        same_shape(h, g),
    ensures
        is_rectangular(h),
{
    assert forall|i: int| 0 <= i < h.len() implies (#[trigger] h[i]).len() == h[0].len() by {
        assert(h[i].len() == g[i].len());
        assert(h[0].len() == g[0].len());
    }
}

/// Grids of one shape with the same tile at every position are the same grid.
pub proof fn lemma_same_tiles_same_grid(a: Grid, b: Grid)
    requires
        is_addressable(a),
        same_shape(a, b),
        forall|p: Position| in_grid(a, p) ==> #[trigger] tile(a, p) == tile(b, p),
    ensures
        a == b,
{
    assert forall|i: int| 0 <= i < a.len() implies #[trigger] a[i] =~= b[i] by {
        assert(a[i].len() == b[i].len());
        assert forall|j: int| 0 <= j < a[i].len() implies a[i][j] == b[i][j] by {
            let p = cell(i, j);
            assert(in_grid(a, p));
            assert(tile(a, p) == tile(b, p));
        }
    }
    assert(a =~= b);
}

impl Position {
    /// The cell above, unless this one is in the top row.
    pub fn up(&self, _dims: &Dimension) -> (r: Option<Position>)
        ensures
            r == (if self.row > 0 {
                Some(Position { row: (self.row - 1) as usize, col: self.col })
            } else {
                None
            }),
    {
        if self.row > 0 {
            Some(Position { row: self.row - 1, col: self.col })
        } else {
            None
        }
    }

    /// The cell below, unless this one is in the bottom row or beyond it.
    pub fn down(&self, dims: &Dimension) -> (r: Option<Position>)
        ensures
            r == (if self.row + 1 < dims.rows {
                Some(Position { row: (self.row + 1) as usize, col: self.col })
            } else {
                None
            }),
    {
        if dims.rows > 0 && self.row < dims.rows - 1 {
            Some(Position { row: self.row + 1, col: self.col })
        } else {
            None
        }
    }

    /// The cell to the left, unless this one is in the first column.
    pub fn left(&self, _dims: &Dimension) -> (r: Option<Position>)
        ensures
            r == (if self.col > 0 {
                Some(Position { row: self.row, col: (self.col - 1) as usize })
            } else {
                None
            }),
    {
        if self.col > 0 {
            Some(Position { row: self.row, col: self.col - 1 })
        } else {
            None
        }
    }

    /// The cell to the right, unless this one is in the last column or beyond it.
    pub fn right(&self, dims: &Dimension) -> (r: Option<Position>)
        ensures
            r == (if self.col + 1 < dims.cols {
                Some(Position { row: self.row, col: (self.col + 1) as usize })
            } else {
                None
            }),
    {
        if dims.cols > 0 && self.col < dims.cols - 1 {
            Some(Position { row: self.row, col: self.col + 1 })
        } else {
            None
        }
    }
}

/// The extent of `matrix`, read off its first row; `None` for a grid without cells.
pub fn size(matrix: &Matrix) -> (r: Option<Dimension>)
    ensures
        r is None <==> is_degenerate(tiles(matrix)),
        r matches Some(d) ==> d.rows == tiles(matrix).len() && d.cols == tiles(matrix)[0].len(),
{
    let rows: usize = matrix.len();
    if rows == 0 {
        return None;
    }
    let cols: usize = matrix[0].len();
    if cols == 0 {
        return None;
    }
    Some(Dimension { rows, cols })
}

/// Whether every row of `matrix` is as long as the first one.
pub fn has_equal_rows(matrix: &Matrix) -> (ok: bool)
    ensures
        ok == is_rectangular(tiles(matrix)),
{
    let rows: usize = matrix.len();
    if rows == 0 {
        return true;
    }
    let cols: usize = matrix[0].len();
    let mut i: usize = 1;
    while i < rows
        invariant
            1 <= i <= rows,
            rows == matrix@.len(),
            cols == matrix@[0]@.len(),
            forall|k: int| 0 <= k < i ==> (#[trigger] tiles(matrix)[k]).len() == cols,
        decreases rows - i,
    {
        if matrix[i].len() != cols {
            assert(tiles(matrix)[i as int].len() != tiles(matrix)[0].len());
            return false;
        }
        i += 1;
    }
    true
}

/// The smallest number that a noise draw can give.
pub const DRAW_MIN: u8 = 1;

/// The largest number that a noise draw can give.
pub const DRAW_MAX: u8 = 100;

/// `rand::rngs::ThreadRng`, the handle to the thread-local generator. Nothing is known
/// of its state.
#[verifier::external_type_specification]
#[verifier::external_body]
pub struct ExThreadRng(rand::rngs::ThreadRng);

/// `rand::thread_rng`: hands out the thread-local generator, seeded by the system.
/// Nothing is claimed of the handle. The call takes no argument; it panics only where
/// the system cannot seed the generator.
pub assume_specification[ rand::thread_rng ]() -> (rng: ThreadRng)
;

/// `rand::Rng::gen_range` on the inclusive range from `low` to `high`: the draw lies in
/// that range, both ends included. An empty range makes `gen_range` panic, so `low` may
/// not exceed `high`. Which number of the range comes is left open, and two draws from
/// one range may differ.
#[verifier::external_body]
fn draw_between(rng: &mut ThreadRng, low: u8, high: u8) -> (val: u8)
    requires
        low <= high,
    ensures
        low <= val <= high,
{
    rng.gen_range(low..=high)
}

/// The tile that a draw selects: `on` when the draw is below the density, `off` when it
/// is not. With draws from 1 to 100 a density of 1 or less gives no `on` tile and a
/// density above 100 gives no `off` tile.
pub open spec fn tile_for_draw(draw: u8, noise_density: u8, on: u8, off: u8) -> u8 {
    if draw < noise_density {
        on
    } else {
        off
    }
}

/// Some draw between `DRAW_MIN` and `DRAW_MAX` selects `t`.
pub open spec fn is_possible_tile(t: u8, noise_density: u8, on: u8, off: u8) -> bool {
    exists|draw: u8|
        DRAW_MIN <= draw <= DRAW_MAX && t == #[trigger] tile_for_draw(draw, noise_density, on, off)
}

/// Every cell of `g` holds `a` or `b`.
pub open spec fn is_binary(g: Grid, a: u8, b: u8) -> bool {
    forall|i: int, j: int|
        0 <= i < g.len() && 0 <= j < g[i].len() ==> #[trigger] g[i][j] == a || g[i][j] == b
}

/// Every cell of `g` holds a tile that some draw selects at this density.
pub open spec fn is_noise(g: Grid, noise_density: u8, on: u8, off: u8) -> bool {
    forall|i: int, j: int|
        0 <= i < g.len() && 0 <= j < g[i].len() ==> is_possible_tile(
            #[trigger] g[i][j],
            noise_density,
            on,
            off,
        )
}

/// The tile for one draw at the given density.
pub fn noise_tile(draw: u8, noise_density: u8, val_on: u8, val_off: u8) -> (t: u8)
    ensures
        t == tile_for_draw(draw, noise_density, val_on, val_off),
{
    if draw < noise_density {
        val_on
    } else {
        val_off
    }
}

/// Overwrites every cell with the tile of a fresh draw between `DRAW_MIN` and `DRAW_MAX`.
pub fn noise_matrix(matrix: &mut Matrix, noise_density: u8, val_on: u8, val_off: u8)
    ensures
        same_shape(tiles(final(matrix)), tiles(old(matrix))),
        is_noise(tiles(final(matrix)), noise_density, val_on, val_off),
        is_binary(tiles(final(matrix)), val_on, val_off),
        noise_density <= DRAW_MIN ==> is_uniform(tiles(final(matrix)), val_off),
        noise_density > DRAW_MAX ==> is_uniform(tiles(final(matrix)), val_on),
{
    let ghost before = tiles(matrix);
    let mut rng = rand::thread_rng();
    let rows: usize = matrix.len();
    let mut i: usize = 0;
    while i < rows
        invariant
            i <= rows,
            rows == matrix@.len(),
            rows == before.len(),
            forall|k: int| 0 <= k < rows ==> (#[trigger] matrix@[k])@.len() == before[k].len(),
            forall|k: int, c: int|
                0 <= k < i && 0 <= c < before[k].len() ==> is_possible_tile(
                    #[trigger] matrix@[k]@[c],
                    noise_density,
                    val_on,
                    val_off,
                ),
        decreases rows - i,
    {
        let cols: usize = matrix[i].len();
        let mut j: usize = 0;
        while j < cols
            invariant
                j <= cols,
                i < rows,
                rows == matrix@.len(),
                rows == before.len(),
                cols == before[i as int].len(),
                forall|k: int| 0 <= k < rows ==> (#[trigger] matrix@[k])@.len() == before[k].len(),
                forall|k: int, c: int|
                    (0 <= k < i && 0 <= c < before[k].len()) || (k == i && 0 <= c < j)
                        ==> is_possible_tile(
                        #[trigger] matrix@[k]@[c],
                        noise_density,
                        val_on,
                        val_off,
                    ),
            decreases cols - j,
        {
            let val: u8 = draw_between(&mut rng, DRAW_MIN, DRAW_MAX);
            let t: u8 = noise_tile(val, noise_density, val_on, val_off);
            matrix[i][j] = t;
            assert(is_possible_tile(t, noise_density, val_on, val_off)) by {
                assert(t == tile_for_draw(val, noise_density, val_on, val_off));
            }
            j += 1;
        }
        i += 1;
    }
    proof {
        let g = tiles(matrix);
        assert forall|k: int, c: int| 0 <= k < g.len() && 0 <= c < g[k].len() implies {
            &&& is_possible_tile(#[trigger] g[k][c], noise_density, val_on, val_off)
            &&& g[k][c] == val_on || g[k][c] == val_off
            &&& noise_density <= DRAW_MIN ==> g[k][c] == val_off
            &&& noise_density > DRAW_MAX ==> g[k][c] == val_on
        } by {
            assert(is_possible_tile(matrix@[k]@[c], noise_density, val_on, val_off));
        }
    }
}

/// Whether the cell at (`i`, `j`) lies on the outer ring of `g`.
pub open spec fn on_border(g: Grid, i: int, j: int) -> bool {
    i == 0 || i == g.len() - 1 || j == 0 || j == g[i].len() - 1
}

/// `g` with its outer ring set to `fill` and every other cell as it was.
pub open spec fn with_borders(g: Grid, fill: u8) -> Grid {
    Seq::new(
        g.len(),
        |i: int|
            Seq::new(
                g[i].len(),
                |j: int|
                    if on_border(g, i, j) {
                        fill
                    } else {
                        g[i][j]
                    },
            ),
    )
}

/// Sets the first and last row, and the first and last cell of every row, to `fill`.
pub fn fill_borders(matrix: &mut Matrix, fill: u8)
    requires
        has_cells(tiles(old(matrix))),
    ensures
        tiles(final(matrix)) == with_borders(tiles(old(matrix)), fill),
{
    let ghost before = tiles(matrix);
    let rows: usize = matrix.len();
    let mut i: usize = 0;
    while i < rows
        invariant
            i <= rows,
            rows == matrix@.len(),
            rows == before.len(),
            has_cells(before),
            forall|k: int| 0 <= k < rows ==> (#[trigger] matrix@[k])@.len() == before[k].len(),
            forall|k: int, j: int|
                0 <= k < rows && 0 <= j < before[k].len() ==> (#[trigger] matrix@[k]@[j]) == (if k < i
                    && (j == 0 || j == before[k].len() - 1) {
                    fill
                } else {
                    before[k][j]
                }),
        decreases rows - i,
    {
        assert(before[i as int].len() >= 1);
        let cols: usize = matrix[i].len();
        matrix[i][0] = fill;
        matrix[i][cols - 1] = fill;
        i += 1;
    }
    let last: usize = rows - 1;
    let top_cols: usize = matrix[0].len();
    let mut j: usize = 0;
    while j < top_cols
        invariant
            j <= top_cols,
            rows == matrix@.len(),
            rows == before.len(),
            rows >= 1,
            top_cols == before[0].len(),
            forall|k: int| 0 <= k < rows ==> (#[trigger] matrix@[k])@.len() == before[k].len(),
            forall|k: int, c: int|
                0 <= k < rows && 0 <= c < before[k].len() ==> (#[trigger] matrix@[k]@[c]) == (if (c
                    == 0 || c == before[k].len() - 1) || (k == 0 && c < j) {
                    fill
                } else {
                    before[k][c]
                }),
        decreases top_cols - j,
    {
        matrix[0][j] = fill;
        j += 1;
    }
    let bottom_cols: usize = matrix[last].len();
    let mut j: usize = 0;
    while j < bottom_cols
        invariant
            j <= bottom_cols,
            rows == matrix@.len(),
            rows == before.len(),
            rows >= 1,
            last == rows - 1,
            bottom_cols == before[last as int].len(),
            forall|k: int| 0 <= k < rows ==> (#[trigger] matrix@[k])@.len() == before[k].len(),
            forall|k: int, c: int|
                0 <= k < rows && 0 <= c < before[k].len() ==> (#[trigger] matrix@[k]@[c]) == (if (c
                    == 0 || c == before[k].len() - 1) || k == 0 || (k == last && c < j) {
                    fill
                } else {
                    before[k][c]
                }),
        decreases bottom_cols - j,
    {
        matrix[last][j] = fill;
        j += 1;
    }
    assert(tiles(matrix) =~~= with_borders(before, fill));
}

/// Setting the outer ring a second time changes nothing.
pub proof fn lemma_fill_borders_idempotent(g: Grid, fill: u8)
    ensures
        with_borders(with_borders(g, fill), fill) == with_borders(g, fill),
{
    assert(with_borders(with_borders(g, fill), fill) =~~= with_borders(g, fill));
}

/// After the outer ring is set, a cell holds `fill` if it lies on the ring and is
/// unchanged if it does not; the grid keeps its shape.
pub proof fn lemma_with_borders_cells(g: Grid, fill: u8, i: int, j: int)
    requires
        0 <= i < g.len(),
        0 <= j < g[i].len(),
    ensures
        with_borders(g, fill).len() == g.len(),
        with_borders(g, fill)[i].len() == g[i].len(),
        on_border(g, i, j) ==> with_borders(g, fill)[i][j] == fill,
        !on_border(g, i, j) ==> with_borders(g, fill)[i][j] == g[i][j],
{
}

/// Every cell of `g` holds `value`.
pub open spec fn is_uniform(g: Grid, value: u8) -> bool {
    forall|i: int, j: int| 0 <= i < g.len() && 0 <= j < g[i].len() ==> #[trigger] g[i][j] == value
}

/// Whether the cell at (`i`, `j`) has all eight neighbours inside `g`.
pub open spec fn is_interior(g: Grid, i: int, j: int) -> bool {
    0 < i < g.len() - 1 && 0 < j < g[0].len() - 1
}

/// 1 if `t` is `value`, else 0.
pub open spec fn one_if(t: u8, value: u8) -> int {
    if t == value {
        1
    } else {
        0
    }
}

/// How many of the eight cells around (`i`, `j`) hold `value`.
pub open spec fn neighbours_holding(g: Grid, i: int, j: int, value: u8) -> int {
    one_if(g[i - 1][j - 1], value) + one_if(g[i - 1][j], value) + one_if(g[i - 1][j + 1], value)
        + one_if(g[i][j - 1], value) + one_if(g[i][j + 1], value) + one_if(
        g[i + 1][j - 1],
        value,
    ) + one_if(g[i + 1][j], value) + one_if(g[i + 1][j + 1], value)
}

/// The tile at (`i`, `j`) after one majority pass: an interior cell turns `on` when more
/// than four of its eight neighbours are `on`, and `off` otherwise; a cell of the outer
/// ring stays as it is.
pub open spec fn smoothed_tile(g: Grid, i: int, j: int, on: u8, off: u8) -> u8 {
    if is_interior(g, i, j) {
        if neighbours_holding(g, i, j, on) > 4 {
            on
        } else {
            off
        }
    } else {
        g[i][j]
    }
}

/// `g` after one majority pass, every cell computed from `g` itself.
pub open spec fn smoothed(g: Grid, on: u8, off: u8) -> Grid {
    Seq::new(g.len(), |i: int| Seq::new(g[i].len(), |j: int| smoothed_tile(g, i, j, on, off)))
}

/// Counts the cells around the interior cell (`i`, `j`) that hold `val_on`.
fn count_neighbours(input: &Matrix, i: usize, j: usize, val_on: u8) -> (n: u8)
    requires
        is_rectangular(tiles(input)),
        is_interior(tiles(input), i as int, j as int),
    ensures
        n == neighbours_holding(tiles(input), i as int, j as int, val_on),
{
    let ghost g = tiles(input);
    assert(g.len() == input.len() && g[0].len() == input[0].len());
    assert(g[i - 1].len() == g[0].len() && g[i as int].len() == g[0].len() && g[i + 1].len()
        == g[0].len());
    let mut n: u8 = 0;
    if input[i - 1][j - 1] == val_on {
        n += 1;
    }
    if input[i - 1][j] == val_on {
        n += 1;
    }
    if input[i - 1][j + 1] == val_on {
        n += 1;
    }
    if input[i][j - 1] == val_on {
        n += 1;
    }
    if input[i][j + 1] == val_on {
        n += 1;
    }
    if input[i + 1][j - 1] == val_on {
        n += 1;
    }
    if input[i + 1][j] == val_on {
        n += 1;
    }
    if input[i + 1][j + 1] == val_on {
        n += 1;
    }
    n
}

/// One pass of the majority rule over the Moore neighbourhood, into a new matrix.
/// `None` for a grid without cells.
pub fn moore_neighborhood(input: &Matrix, val_on: u8, val_off: u8) -> (r: Option<Matrix>)
    requires
        is_rectangular(tiles(input)),
    ensures
        r is None <==> is_degenerate(tiles(input)),
        r matches Some(out) ==> {
            &&& tiles(&out) == smoothed(tiles(input), val_on, val_off)
            &&& out@.len() == input@.len()
            &&& forall|i: int| 0 <= i < out@.len() ==> (#[trigger] out@[i])@.len() == input@[i]@.len()
            &&& is_uniform(tiles(input), val_off) ==> is_uniform(tiles(&out), val_off)
            &&& is_uniform(tiles(input), val_on) ==> is_uniform(tiles(&out), val_on)
        },
{
    let dims = match size(input) {
        Some(d) => d,
        None => {
            return None;
        },
    };
    let ghost g = tiles(input);
    let mut output: Matrix = Vec::new();
    let mut i: usize = 0;
    while i < dims.rows
        invariant
            i <= dims.rows,
            dims.rows == g.len(),
            dims.cols == g[0].len(),
            g == tiles(input),
            is_rectangular(g),
            output@.len() == i,
            forall|k: int| 0 <= k < i ==> (#[trigger] output@[k])@ == smoothed(g, val_on, val_off)[k],
        decreases dims.rows - i,
    {
        let mut row: Vec<u8> = Vec::new();
        let mut j: usize = 0;
        assert(g[i as int].len() == g[0].len());
        while j < dims.cols
            invariant
                j <= dims.cols,
                i < dims.rows,
                dims.rows == g.len(),
                dims.cols == g[0].len(),
                dims.cols == g[i as int].len(),
                g == tiles(input),
                is_rectangular(g),
                row@.len() == j,
                forall|c: int|
                    0 <= c < j ==> #[trigger] row@[c] == smoothed_tile(g, i as int, c, val_on, val_off),
            decreases dims.cols - j,
        {
            let t: u8 = if 0 < i && i < dims.rows - 1 && 0 < j && j < dims.cols - 1 {
                if count_neighbours(input, i, j, val_on) > 4 {
                    val_on
                } else {
                    val_off
                }
            } else {
                input[i][j]
            };
            row.push(t);
            j += 1;
        }
        assert(row@ =~= smoothed(g, val_on, val_off)[i as int]);
        output.push(row);
        i += 1;
    }
    assert(tiles(&output) =~= smoothed(g, val_on, val_off));
    proof {
        lemma_smoothing_keeps_uniform(g, val_on, val_off, val_off);
        lemma_smoothing_keeps_uniform(g, val_on, val_off, val_on);
    }
    Some(output)
}

/// A grid whose cells all hold `on`, or all hold `off`, comes out of a majority pass as it
/// went in: around an interior cell the count is then eight or none.
pub proof fn lemma_smoothing_keeps_uniform(g: Grid, on: u8, off: u8, value: u8)
    requires
        is_rectangular(g),
        value == on || value == off,
    ensures
        is_uniform(g, value) ==> smoothed(g, on, off) == g,
{
    if is_uniform(g, value) {
        let s = smoothed(g, on, off);
        assert forall|i: int| 0 <= i < g.len() implies #[trigger] s[i] =~= g[i] by {
            assert forall|j: int| 0 <= j < g[i].len() implies s[i][j] == g[i][j] by {
                if is_interior(g, i, j) {
                    assert(g[i - 1].len() == g[0].len());
                    assert(g[i].len() == g[0].len());
                    assert(g[i + 1].len() == g[0].len());
                    assert(g[i - 1][j - 1] == value && g[i - 1][j] == value && g[i - 1][j + 1]
                        == value);
                    assert(g[i][j - 1] == value && g[i][j] == value && g[i][j + 1] == value);
                    assert(g[i + 1][j - 1] == value && g[i + 1][j] == value && g[i + 1][j + 1]
                        == value);
                }
            }
        }
        assert(s =~= g);
    }
}

/// Whether `p` holds `value` while a cell above, below, left or right of it, inside the
/// grid, holds something else.
pub open spec fn is_contour(g: Grid, value: u8, p: Position) -> bool {
    &&& holds(g, value, p)
    &&& {
        ||| (p.row > 0 && g[p.row - 1][p.col as int] != value)
        ||| (p.row + 1 < g.len() && g[p.row + 1][p.col as int] != value)
        ||| (p.col > 0 && g[p.row as int][p.col - 1] != value)
        ||| (p.col + 1 < g[p.row as int].len() && g[p.row as int][p.col + 1] != value)
    }
}

/// `s` lists the contour cells of `value` in `g`, each once, in scan order.
pub open spec fn is_contour_list(g: Grid, value: u8, s: Seq<Position>) -> bool {
    &&& forall|p: Position| s.contains(p) <==> is_contour(g, value, p)
    &&& forall|a: int, b: int| 0 <= a < b < s.len() ==> scans_before(#[trigger] s[a], #[trigger] s[b])
}

/// The cells that hold `value` and touch a cell that does not, in scan order.
pub fn contours(matrix: &Matrix, value: u8) -> (positions: Vec<Position>)
    requires
        is_rectangular(tiles(matrix)),
    ensures
        is_contour_list(tiles(matrix), value, positions@),
        positions@.no_duplicates(),
        is_uniform(tiles(matrix), value) ==> positions@.len() == 0,
{
    let ghost g = tiles(matrix);
    let mut positions: Vec<Position> = Vec::new();
    let rows: usize = matrix.len();
    let mut i: usize = 0;
    while i < rows
        invariant
            i <= rows,
            rows == g.len(),
            g == tiles(matrix),
            is_rectangular(g),
            forall|p: Position|
                positions@.contains(p) <==> is_contour(g, value, p) && p.row < i,
            forall|a: int, b: int|
                0 <= a < b < positions@.len() ==> scans_before(
                    #[trigger] positions@[a],
                    #[trigger] positions@[b],
                ),
        decreases rows - i,
    {
        let cols: usize = matrix[i].len();
        assert(g[i as int].len() == g[0].len());
        let mut j: usize = 0;
        while j < cols
            invariant
                j <= cols,
                i < rows,
                rows == g.len(),
                cols == g[i as int].len(),
                cols == g[0].len(),
                g == tiles(matrix),
                is_rectangular(g),
                forall|p: Position|
                    positions@.contains(p) <==> is_contour(g, value, p) && (p.row < i || (p.row == i
                        && p.col < j)),
                forall|a: int, b: int|
                    0 <= a < b < positions@.len() ==> scans_before(
                        #[trigger] positions@[a],
                        #[trigger] positions@[b],
                    ),
            decreases cols - j,
        {
            let here = Position { row: i, col: j };
            let ghost before = positions@;
            if matrix[i][j] == value {
                assert(i > 0 ==> g[i - 1].len() == g[0].len());
                assert(i + 1 < rows ==> g[i + 1].len() == g[0].len());
                let differs: bool = (i > 0 && matrix[i - 1][j] != value) || (i < rows - 1
                    && matrix[i + 1][j] != value) || (j > 0 && matrix[i][j - 1] != value) || (j
                    < cols - 1 && matrix[i][j + 1] != value);
                assert(differs <==> is_contour(g, value, here));
                if differs {
                    proof {
                        assert forall|a: int| 0 <= a < before.len() implies scans_before(
                            #[trigger] before[a],
                            here,
                        ) by {
                            assert(before.contains(before[a]));
                        }
                    }
                    positions.push(here);
                }
            }
            proof {
                assert forall|p: Position|
                    positions@.contains(p) <==> is_contour(g, value, p) && (p.row < i || (p.row == i
                        && p.col < j + 1)) by {
                    if positions@.len() > before.len() {
                        vstd::seq_lib::lemma_seq_contains_after_push(before, here, p);
                    }
                    if p.row == i && p.col == j {
                        assert(p == here);
                    }
                }
            }
            j += 1;
        }
        i += 1;
    }
    proof {
        assert forall|a: int, b: int|
            0 <= a < positions@.len() && 0 <= b < positions@.len() && a != b implies positions@[a]
            != positions@[b] by {
            if a < b {
                assert(scans_before(positions@[a], positions@[b]));
            } else {
                assert(scans_before(positions@[b], positions@[a]));
            }
        }
        if is_uniform(g, value) && positions@.len() > 0 {
            let p = positions@[0];
            assert(positions@.contains(p));
            assert(is_contour(g, value, p));
            assert(p.row > 0 ==> g[p.row - 1].len() == g[0].len());
            assert(p.row + 1 < g.len() ==> g[p.row + 1].len() == g[0].len());
            assert(g[p.row as int].len() == g[0].len());
        }
    }
    positions
}

/// The lists that a vector of regions holds.
pub open spec fn region_seqs(regions: &Vec<Vec<Position>>) -> Seq<Seq<Position>> {
    Seq::new(regions@.len(), |k: int| regions@[k]@)
}

/// The regions of `value`: the groups of cells that hold it and hang together side by
/// side, found by a flood fill from every such cell that no earlier fill has reached, in
/// scan order.
pub fn regions(matrix: &Matrix, value: u8) -> (regions: Vec<Vec<Position>>)
    requires
        is_rectangular(tiles(matrix)),
    ensures
        is_region_list(tiles(matrix), value, region_seqs(&regions)),
        is_partition(tiles(matrix), value, region_seqs(&regions)),
{
    let ghost g = tiles(matrix);
    let mut regions: Vec<Vec<Position>> = Vec::new();
    let dims = match size(matrix) {
        Some(d) => d,
        None => {
            proof {
                let rs = region_seqs(&regions);
                assert forall|p: Position| !holds(g, value, p) by {
                    if in_grid(g, p) {
                        assert(g[p.row as int].len() == g[0].len());
                    }
                }
                assert(is_region_list(g, value, rs));
                lemma_region_list_is_partition(g, value, rs);
            }
            return regions;
        },
    };
    let mut table = blank_table(&dims);
    proof {
        assert(covers(marks(&table), g)) by {
            assert forall|k: int| 0 <= k < g.len() implies (#[trigger] marks(&table)[k]).len()
                == g[k].len() by {
                assert(g[k].len() == g[0].len());
            }
        }
        assert(region_seqs(&regions) =~= Seq::<Seq<Position>>::empty());
        lemma_scan_starts(g, value, marks(&table));
    }
    let mut i: usize = 0;
    while i < dims.rows
        invariant
            i <= dims.rows,
            g == tiles(matrix),
            is_rectangular(g),
            dims.rows == g.len(),
            dims.cols == g[0].len(),
            scan_state(g, value, marks(&table), region_seqs(&regions), i as int, 0),
        decreases dims.rows - i,
    {
        let mut j: usize = 0;
        assert(g[i as int].len() == g[0].len());
        while j < dims.cols
            invariant
                i < dims.rows,
                j <= dims.cols,
                g == tiles(matrix),
                is_rectangular(g),
                dims.rows == g.len(),
                dims.cols == g[0].len(),
                dims.cols == g[i as int].len(),
                scan_state(g, value, marks(&table), region_seqs(&regions), i as int, j as int),
            decreases dims.cols - j,
        {
            let ghost m = marks(&table);
            let ghost rs = region_seqs(&regions);
            assert(m[i as int].len() == g[i as int].len());
            if matrix[i][j] == value && !table[i][j] {
                let seed = Position { row: i, col: j };
                let region = flood_fill(matrix, value, &dims, &mut table, seed);
                proof {
                    lemma_scan_takes(g, value, m, marks(&table), rs, region@, i as int, j as int);
                }
                regions.push(region);
                assert(region_seqs(&regions) =~= rs.push(region@));
            } else {
                proof {
                    lemma_scan_passes(g, value, m, rs, i as int, j as int);
                }
            }
            j += 1;
        }
        proof {
            lemma_scan_next_row(g, value, marks(&table), region_seqs(&regions), i as int);
        }
        i += 1;
    }
    proof {
        lemma_scan_done(g, value, marks(&table), region_seqs(&regions));
        lemma_region_list_is_partition(g, value, region_seqs(&regions));
    }
    regions
}

} // verus!
