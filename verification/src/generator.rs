//! The cave generator: a grid of fixed extent, the two parameters that shape it, and the
//! regions and contours last computed from it.

use crate::cave::{
    cleaned, is_cave, is_cleaned, is_generated, is_walled, lemma_isolated_cave,
    lemma_isolated_stays_walled, lemma_pruned_cave, lemma_pruned_stays_walled,
    lemma_smoothed_cave, lemma_smoothed_times_cave, lemma_walled_cave, smoothed_times,
};
use crate::clearing::{is_connected, lemma_cleaning_leaves_one_region};
use crate::connectivity::{
    component, is_region, is_region_list, lemma_region_first, lemma_region_size, region_size,
};
use crate::matrix::{
    cell, contours, fill_borders, holds, in_grid, is_contour_list, is_noise, moore_neighborhood,
    noise_matrix, region_seqs, regions, smoothed, tile, tiles, Grid, Matrix, Position,
};
use crate::palette::{cell_color, shown_color, CAColor};
use crate::prune::{
    keep_largest_region, lemma_pruning_keeps_large_regions, lemma_pruning_leaves_large_regions,
    prune_small_regions, pruned,
};
use vstd::prelude::*;

verus! {

/// The number of rows of the generator's grid.
pub const MATRIX_ROWS: usize = 70;

/// The number of columns of the generator's grid.
pub const MATRIX_COLS: usize = 70;

/// Wall regions of at most this many cells are erased by `filter`.
pub const REGION_THRESHOLD: usize = 3;

/// The tile of open ground.
pub const TILE_FLOOR: u8 = 0;

/// The tile of rock.
pub const TILE_WALL: u8 = 1;

/// The highest noise density.
pub const MAX_NOISE_DENSITY: u8 = 100;

/// The noise density of a new generator.
pub const DEFAULT_NOISE_DENSITY: u8 = 58;

/// The number of smoothing passes of a new generator.
pub const DEFAULT_ITERATIONS: usize = 3;

/// Generates caves and keeps the analysis of the current one.
pub struct Generator {
    noise_density: u8,
    iterations: usize,
    matrix: Matrix,
    contours: Vec<Position>,
    regions: Vec<Vec<Position>>,
}

/// What a generator holds, as plain mathematical values.
pub struct GeneratorView {
    pub noise_density: u8,
    pub iterations: usize,
    pub grid: Grid,
    pub contours: Seq<Position>,
    pub regions: Seq<Seq<Position>>,
}

/// Every listed region has more than `threshold` cells.
pub open spec fn are_larger_than(rs: Seq<Seq<Position>>, threshold: nat) -> bool {
    forall|k: int| 0 <= k < rs.len() ==> (#[trigger] rs[k]).len() > threshold
}

impl View for Generator {
    type V = GeneratorView;

    /// The parameters, the grid of the matrix, and the lists of the analysis.
    closed spec fn view(&self) -> GeneratorView {
        GeneratorView {
            noise_density: self.noise_density,
            iterations: self.iterations,
            grid: tiles(&self.matrix),
            contours: self.contours@,
            regions: region_seqs(&self.regions),
        }
    }
}

/// The index of the first list from `from` on that holds `p`.
pub open spec fn first_region_with(rs: Seq<Seq<Position>>, p: Position, from: int) -> Option<usize>
    decreases rs.len() - from,
{
    if from < 0 || from >= rs.len() {
        None
    } else if rs[from].contains(p) {
        Some(from as usize)
    } else {
        first_region_with(rs, p, from + 1)
    }
}

impl GeneratorView {
    /// The index of the first region that holds `p`.
    pub open spec fn region_of(self, p: Position) -> Option<usize> {
        first_region_with(self.regions, p, 0)
    }

    /// The colour in which the cell at `p` is drawn: dark for open ground, the colour
    /// of its region for rock, brightened where `p` is listed as a contour.
    pub open spec fn color_of(self, p: Position) -> CAColor {
        shown_color(tile(self.grid, p), self.region_of(p), self.contours.contains(p))
    }

    /// The regions and contours are the ones that `other` holds.
    pub open spec fn has_analysis_of(self, other: GeneratorView) -> bool {
        self.regions == other.regions && self.contours == other.contours
    }

    /// The regions and contours are those of the wall tiles of the grid.
    pub open spec fn is_analysed(self) -> bool {
        &&& is_region_list(self.grid, TILE_WALL, self.regions)
        &&& is_contour_list(self.grid, TILE_WALL, self.contours)
    }
}

/// A matrix of the given extent with `fill` in every cell.
fn blank_matrix(rows: usize, cols: usize, fill: u8) -> (matrix: Matrix)
    ensures
        tiles(&matrix).len() == rows,
        forall|i: int| 0 <= i < rows ==> (#[trigger] tiles(&matrix)[i]).len() == cols,
        forall|i: int, j: int|
            0 <= i < rows && 0 <= j < cols ==> #[trigger] tiles(&matrix)[i][j] == fill,
{
    let mut matrix: Matrix = Vec::new();
    let mut i: usize = 0;
    while i < rows
        invariant
            i <= rows,
            matrix@.len() == i,
            forall|k: int| 0 <= k < i ==> (#[trigger] matrix@[k])@.len() == cols,
            forall|k: int, c: int| 0 <= k < i && 0 <= c < cols ==> #[trigger] matrix@[k]@[c] == fill,
        decreases rows - i,
    {
        let mut row: Vec<u8> = Vec::new();
        let mut j: usize = 0;
        while j < cols
            invariant
                j <= cols,
                row@.len() == j,
                forall|c: int| 0 <= c < j ==> #[trigger] row@[c] == fill,
            decreases cols - j,
        {
            row.push(fill);
            j += 1;
        }
        matrix.push(row);
        i += 1;
    }
    matrix
}

/// Whether `list` holds `position`.
fn lists_position(list: &Vec<Position>, position: &Position) -> (found: bool)
    ensures
        found == list@.contains(*position),
{
    let mut t: usize = 0;
    while t < list.len()
        invariant
            t <= list@.len(),
            forall|u: int| 0 <= u < t ==> list@[u] != *position,
        decreases list@.len() - t,
    {
        if list[t].row == position.row && list[t].col == position.col {
            assert(list@[t as int] == *position);
            return true;
        }
        t += 1;
    }
    false
}

impl Generator {
    /// The noise density is in range and the grid is a cave.
    pub open spec fn wf(&self) -> bool {
        &&& self@.noise_density <= MAX_NOISE_DENSITY
        &&& is_cave(self@.grid)
    }

    /// A generator with an all-floor grid, the default parameters and no analysis yet.
    pub fn new() -> (generator: Self)
        ensures
            generator.wf(),
            generator@.noise_density == DEFAULT_NOISE_DENSITY,
            generator@.iterations == DEFAULT_ITERATIONS,
            forall|i: int, j: int|
                0 <= i < MATRIX_ROWS && 0 <= j < MATRIX_COLS ==> #[trigger] generator@.grid[i][j]
                    == TILE_FLOOR,
            generator@.contours.len() == 0,
            generator@.regions.len() == 0,
    {
        let matrix = blank_matrix(MATRIX_ROWS, MATRIX_COLS, TILE_FLOOR);
        Self {
            noise_density: DEFAULT_NOISE_DENSITY,
            iterations: DEFAULT_ITERATIONS,
            matrix,
            contours: Vec::new(),
            regions: Vec::new(),
        }
    }

    /// One more majority pass over the grid, and the analysis of what comes out.
    fn generate(&mut self)
        requires
            old(self).wf(),
        ensures
            final(self).wf(),
            final(self)@.grid == smoothed(old(self)@.grid, TILE_WALL, TILE_FLOOR),
            final(self)@.is_analysed(),
            final(self)@.noise_density == old(self)@.noise_density,
            final(self)@.iterations == old(self)@.iterations,
    {
        proof {
            lemma_smoothed_cave(tiles(&self.matrix));
        }
        // A cave has cells, so that the pass always gives a grid.
        if let Some(matrix) = moore_neighborhood(&self.matrix, TILE_WALL, TILE_FLOOR) {
            self.matrix = matrix;
            self.regions = regions(&self.matrix, TILE_WALL);
            self.contours = contours(&self.matrix, TILE_WALL);
        }
    }

    /// The noise density, from 0 to `MAX_NOISE_DENSITY`.
    pub fn noise_density(&self) -> (density: u8)
        ensures
            density == self@.noise_density,
    {
        self.noise_density
    }

    /// The number of majority passes that `regenerate` runs.
    pub fn iterations(&self) -> (iterations: usize)
        ensures
            iterations == self@.iterations,
    {
        self.iterations
    }

    /// The grid.
    pub fn get_matrix(&self) -> (matrix: &Vec<Vec<u8>>)
        ensures
            tiles(matrix) == self@.grid,
    {
        &self.matrix
    }

    /// The contour cells of the wall tiles, as last computed.
    pub fn get_contours(&self) -> (contours: &Vec<Position>)
        ensures
            contours@ == self@.contours,
    {
        &self.contours
    }

    /// The index of the first region, as last computed, that holds `position`.
    pub fn region_id(&self, position: &Position) -> (id: Option<usize>)
        ensures
            id == self@.region_of(*position),
            match id {
                Some(k) => {
                    &&& k < self@.regions.len()
                    &&& self@.regions[k as int].contains(*position)
                    &&& forall|a: int| 0 <= a < k ==> !(#[trigger] self@.regions[a]).contains(*position)
                },
                None => forall|a: int|
                    0 <= a < self@.regions.len() ==> !(#[trigger] self@.regions[a]).contains(
                        *position,
                    ),
            },
    {
        let ghost rs = region_seqs(&self.regions);
        let mut id: usize = 0;
        while id < self.regions.len()
            invariant
                id <= self.regions@.len(),
                rs == region_seqs(&self.regions),
                forall|a: int| 0 <= a < id ==> !(#[trigger] rs[a]).contains(*position),
                first_region_with(rs, *position, 0) == first_region_with(rs, *position, id as int),
            decreases self.regions@.len() - id,
        {
            assert(rs[id as int] == self.regions@[id as int]@);
            if lists_position(&self.regions[id], position) {
                return Some(id);
            }
            id += 1;
        }
        None
    }

    /// The colour in which the cell at `position` is drawn.
    pub fn color_at(&self, position: &Position) -> (color: CAColor)
        requires
            self.wf(),
            in_grid(self@.grid, *position),
        ensures
            color == self@.color_of(*position),
    {
        assert(tiles(&self.matrix)[position.row as int].len() == MATRIX_COLS);
        let tile: u8 = self.matrix[position.row][position.col];
        let region = self.region_id(position);
        let on_contour: bool = lists_position(&self.contours, position);
        cell_color(tile, region, on_contour)
    }

    /// The colours in which the cells of the grid are drawn, row by row.
    pub fn picture(&self) -> (rows: Vec<Vec<CAColor>>)
        requires
            self.wf(),
        ensures
            rows@.len() == MATRIX_ROWS,
            forall|i: int| 0 <= i < MATRIX_ROWS ==> (#[trigger] rows@[i])@.len() == MATRIX_COLS,
            forall|i: int, j: int|
                0 <= i < MATRIX_ROWS && 0 <= j < MATRIX_COLS ==> #[trigger] rows@[i]@[j]
                    == self@.color_of(cell(i, j)),
    {
        let mut rows: Vec<Vec<CAColor>> = Vec::new();
        let mut i: usize = 0;
        while i < MATRIX_ROWS
            invariant
                i <= MATRIX_ROWS,
                self.wf(),
                rows@.len() == i,
                forall|k: int| 0 <= k < i ==> (#[trigger] rows@[k])@.len() == MATRIX_COLS,
                forall|k: int, c: int|
                    0 <= k < i && 0 <= c < MATRIX_COLS ==> #[trigger] rows@[k]@[c]
                        == self@.color_of(cell(k, c)),
            decreases MATRIX_ROWS - i,
        {
            let mut row: Vec<CAColor> = Vec::new();
            let mut j: usize = 0;
            while j < MATRIX_COLS
                invariant
                    i < MATRIX_ROWS,
                    j <= MATRIX_COLS,
                    self.wf(),
                    row@.len() == j,
                    forall|c: int|
                        0 <= c < j ==> #[trigger] row@[c] == self@.color_of(cell(i as int, c)),
                decreases MATRIX_COLS - j,
            {
                let position = Position { row: i, col: j };
                assert(self@.grid[i as int].len() == MATRIX_COLS);
                row.push(self.color_at(&position));
                j += 1;
            }
            rows.push(row);
            i += 1;
        }
        rows
    }

    /// Seeds the grid with fresh noise at the current density, walls its outer ring and
    /// runs the majority pass `iterations` times. Each pass brings the analysis up to
    /// date; with no pass the analysis stays what it was.
    pub fn regenerate(&mut self)
        requires
            old(self).wf(),
        ensures
            final(self).wf(),
            final(self)@.noise_density == old(self)@.noise_density,
            final(self)@.iterations == old(self)@.iterations,
            is_generated(
                final(self)@.grid,
                final(self)@.noise_density,
                final(self)@.iterations as nat,
            ),
            is_walled(final(self)@.grid),
            old(self)@.iterations > 0 ==> final(self)@.is_analysed(),
            old(self)@.iterations == 0 ==> final(self)@.has_analysis_of(old(self)@),
    {
        let ghost regions_before = self@.regions;
        let ghost contours_before = self@.contours;
        noise_matrix(&mut self.matrix, self.noise_density, TILE_WALL, TILE_FLOOR);
        let ghost noise = tiles(&self.matrix);
        proof {
            lemma_walled_cave(noise);
        }
        fill_borders(&mut self.matrix, TILE_WALL);
        let ghost walled = tiles(&self.matrix);
        let mut k: usize = 0;
        while k < self.iterations
            invariant
                k <= self.iterations,
                self.wf(),
                self.noise_density == old(self).noise_density,
                self.iterations == old(self).iterations,
                is_cave(walled),
                is_walled(walled),
                tiles(&self.matrix) == smoothed_times(walled, TILE_WALL, TILE_FLOOR, k as nat),
                k > 0 ==> self@.is_analysed(),
                k == 0 ==> self@.regions == regions_before && self@.contours == contours_before,
            decreases self.iterations - k,
        {
            self.generate();
            k += 1;
        }
        proof {
            lemma_smoothed_times_cave(walled, k as nat);
            assert(is_cave(noise) && is_noise(noise, self.noise_density, TILE_WALL, TILE_FLOOR));
        }
    }

    /// Counts one more iteration and runs one more majority pass over the grid as it
    /// stands, without seeding it anew.
    pub fn next_iteration(&mut self)
        requires
            old(self).wf(),
        ensures
            final(self).wf(),
            final(self)@.noise_density == old(self)@.noise_density,
            final(self)@.iterations == (if old(self)@.iterations < usize::MAX {
                (old(self)@.iterations + 1) as usize
            } else {
                usize::MAX
            }),
            final(self)@.grid == smoothed(old(self)@.grid, TILE_WALL, TILE_FLOOR),
            final(self)@.is_analysed(),
    {
        self.iterations = self.iterations.saturating_add(1);
        self.generate();
    }

    /// Raises the noise density by one, up to `MAX_NOISE_DENSITY`, and regenerates.
    pub fn increase_noise_density(&mut self)
        requires
            old(self).wf(),
        ensures
            final(self).wf(),
            final(self)@.noise_density == (if old(self)@.noise_density < MAX_NOISE_DENSITY {
                (old(self)@.noise_density + 1) as u8
            } else {
                old(self)@.noise_density
            }),
            final(self)@.iterations == old(self)@.iterations,
            is_generated(
                final(self)@.grid,
                final(self)@.noise_density,
                final(self)@.iterations as nat,
            ),
            is_walled(final(self)@.grid),
            old(self)@.iterations > 0 ==> final(self)@.is_analysed(),
            old(self)@.iterations == 0 ==> final(self)@.has_analysis_of(old(self)@),
    {
        if self.noise_density < MAX_NOISE_DENSITY {
            self.noise_density += 1;
        }
        self.regenerate();
    }

    /// Lowers the noise density by one, down to 0, and regenerates.
    pub fn decrease_noise_density(&mut self)
        requires
            old(self).wf(),
        ensures
            final(self).wf(),
            final(self)@.noise_density == (if old(self)@.noise_density > 0 {
                (old(self)@.noise_density - 1) as u8
            } else {
                0u8
            }),
            final(self)@.iterations == old(self)@.iterations,
            is_generated(
                final(self)@.grid,
                final(self)@.noise_density,
                final(self)@.iterations as nat,
            ),
            is_walled(final(self)@.grid),
            old(self)@.iterations > 0 ==> final(self)@.is_analysed(),
            old(self)@.iterations == 0 ==> final(self)@.has_analysis_of(old(self)@),
    {
        self.noise_density = self.noise_density.saturating_sub(1);
        self.regenerate();
    }

    /// Raises the number of iterations by one, up to the largest `usize`, and
    /// regenerates.
    pub fn increase_iterations(&mut self)
        requires
            old(self).wf(),
        ensures
            final(self).wf(),
            final(self)@.noise_density == old(self)@.noise_density,
            final(self)@.iterations == (if old(self)@.iterations < usize::MAX {
                (old(self)@.iterations + 1) as usize
            } else {
                usize::MAX
            }),
            is_generated(
                final(self)@.grid,
                final(self)@.noise_density,
                final(self)@.iterations as nat,
            ),
            is_walled(final(self)@.grid),
            final(self)@.iterations > 0 ==> final(self)@.is_analysed(),
            final(self)@.iterations == 0 ==> final(self)@.has_analysis_of(old(self)@),
    {
        self.iterations = self.iterations.saturating_add(1);
        self.regenerate();
    }

    /// Lowers the number of iterations by one, down to 0, and regenerates.
    pub fn decrease_iterations(&mut self)
        requires
            old(self).wf(),
        ensures
            final(self).wf(),
            final(self)@.noise_density == old(self)@.noise_density,
            final(self)@.iterations == (if old(self)@.iterations > 0 {
                (old(self)@.iterations - 1) as usize
            } else {
                0usize
            }),
            is_generated(
                final(self)@.grid,
                final(self)@.noise_density,
                final(self)@.iterations as nat,
            ),
            is_walled(final(self)@.grid),
            final(self)@.iterations > 0 ==> final(self)@.is_analysed(),
            final(self)@.iterations == 0 ==> final(self)@.has_analysis_of(old(self)@),
    {
        self.iterations = self.iterations.saturating_sub(1);
        self.regenerate();
    }

    /// Turns every wall region of at most `threshold` cells into floor and analyses
    /// what is left. The larger wall regions stay cell for cell, and they are the wall
    /// regions afterwards.
    pub fn filter_up_to(&mut self, threshold: usize)
        requires
            old(self).wf(),
        ensures
            final(self).wf(),
            final(self)@.noise_density == old(self)@.noise_density,
            final(self)@.iterations == old(self)@.iterations,
            final(self)@.grid == pruned(old(self)@.grid, TILE_WALL, TILE_FLOOR, threshold as nat),
            final(self)@.is_analysed(),
            are_larger_than(final(self)@.regions, threshold as nat),
            threshold <= REGION_THRESHOLD && is_walled(old(self)@.grid) ==> is_walled(
                final(self)@.grid,
            ),
            forall|p: Position|
                #![trigger holds(final(self)@.grid, TILE_WALL, p)]
                holds(old(self)@.grid, TILE_WALL, p) && region_size(old(self)@.grid, TILE_WALL, p)
                    > threshold ==> holds(final(self)@.grid, TILE_WALL, p) && component(
                    final(self)@.grid,
                    TILE_WALL,
                    p,
                ) == component(old(self)@.grid, TILE_WALL, p),
    {
        let ghost before = tiles(&self.matrix);
        proof {
            lemma_pruned_cave(before, threshold as nat);
            if threshold <= REGION_THRESHOLD && is_walled(before) {
                lemma_pruned_stays_walled(before, threshold as nat);
            }
        }
        prune_small_regions(&mut self.matrix, TILE_WALL, TILE_FLOOR, threshold);
        self.contours = contours(&self.matrix, TILE_WALL);
        self.regions = regions(&self.matrix, TILE_WALL);
        proof {
            let after = tiles(&self.matrix);
            let rs = region_seqs(&self.regions);
            assert forall|k: int| 0 <= k < rs.len() implies (#[trigger] rs[k]).len()
                > threshold by {
                assert(is_region(after, TILE_WALL, rs[k]));
                lemma_region_first(after, TILE_WALL, rs[k]);
                lemma_region_size(after, TILE_WALL, rs[k], rs[k][0]);
                lemma_pruning_leaves_large_regions(
                    before,
                    TILE_WALL,
                    TILE_FLOOR,
                    threshold as nat,
                    rs[k][0],
                );
            }
            assert forall|p: Position|
                #![trigger holds(after, TILE_WALL, p)]
                holds(before, TILE_WALL, p) && region_size(before, TILE_WALL, p)
                    > threshold implies holds(after, TILE_WALL, p) && component(
                after,
                TILE_WALL,
                p,
            ) == component(before, TILE_WALL, p) by {
                lemma_pruning_keeps_large_regions(
                    before,
                    TILE_WALL,
                    TILE_FLOOR,
                    threshold as nat,
                    p,
                );
            }
        }
    }

    /// Turns every wall region of at most `REGION_THRESHOLD` cells into floor and
    /// analyses what is left.
    pub fn filter(&mut self)
        requires
            old(self).wf(),
        ensures
            final(self).wf(),
            final(self)@.noise_density == old(self)@.noise_density,
            final(self)@.iterations == old(self)@.iterations,
            final(self)@.grid == pruned(
                old(self)@.grid,
                TILE_WALL,
                TILE_FLOOR,
                REGION_THRESHOLD as nat,
            ),
            final(self)@.is_analysed(),
            are_larger_than(final(self)@.regions, REGION_THRESHOLD as nat),
            is_walled(old(self)@.grid) ==> is_walled(final(self)@.grid),
            forall|p: Position|
                #![trigger holds(final(self)@.grid, TILE_WALL, p)]
                holds(old(self)@.grid, TILE_WALL, p) && region_size(old(self)@.grid, TILE_WALL, p)
                    > REGION_THRESHOLD ==> holds(final(self)@.grid, TILE_WALL, p) && component(
                    final(self)@.grid,
                    TILE_WALL,
                    p,
                ) == component(old(self)@.grid, TILE_WALL, p),
    {
        self.filter_up_to(REGION_THRESHOLD);
    }

    /// Regenerates, closes every floor region but the largest (of several largest ones
    /// the first in scan order stays open), and filters. The floor that is left is one
    /// region at most.
    pub fn full_cycle(&mut self)
        requires
            old(self).wf(),
        ensures
            final(self).wf(),
            final(self)@.noise_density == old(self)@.noise_density,
            final(self)@.iterations == old(self)@.iterations,
            is_cleaned(
                final(self)@.grid,
                final(self)@.noise_density,
                final(self)@.iterations as nat,
            ),
            final(self)@.is_analysed(),
            are_larger_than(final(self)@.regions, REGION_THRESHOLD as nat),
            is_connected(final(self)@.grid, TILE_FLOOR),
            is_walled(final(self)@.grid),
    {
        self.regenerate();
        let ghost shaped = tiles(&self.matrix);
        proof {
            lemma_isolated_cave(shaped);
            lemma_isolated_stays_walled(shaped);
            lemma_cleaning_leaves_one_region(
                shaped,
                TILE_FLOOR,
                TILE_WALL,
                REGION_THRESHOLD as nat,
            );
        }
        keep_largest_region(&mut self.matrix, TILE_FLOOR, TILE_WALL);
        self.filter();
        proof {
            assert(is_generated(shaped, self.noise_density, self.iterations as nat));
            assert(tiles(&self.matrix) == cleaned(shaped));
        }
    }
}

} // verus!
