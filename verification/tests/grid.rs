use cavegen::matrix::{
    fill_borders, has_equal_rows, noise_matrix, noise_tile, size, Dimension, Matrix, Position,
    DRAW_MAX, DRAW_MIN,
};

fn grid_of(rows: usize, cols: usize, fill: u8) -> Matrix {
    vec![vec![fill; cols]; rows]
}

#[test]
fn size_of_matrix_without_rows_is_none() {
    let matrix: Matrix = Vec::new();
    assert!(size(&matrix).is_none());
}

#[test]
fn size_of_matrix_without_columns_is_none() {
    let matrix: Matrix = vec![Vec::new(), Vec::new()];
    assert!(size(&matrix).is_none());
}

#[test]
fn size_reads_rows_and_columns() {
    let matrix = grid_of(3, 7, 0);
    let dims = size(&matrix).unwrap();
    assert_eq!(dims.rows, 3);
    assert_eq!(dims.cols, 7);
}

#[test]
fn size_of_single_cell() {
    let matrix = grid_of(1, 1, 9);
    let dims = size(&matrix).unwrap();
    assert_eq!((dims.rows, dims.cols), (1, 1));
}

#[test]
fn neighbours_of_an_inner_cell() {
    let dims = Dimension { rows: 3, cols: 4 };
    let p = Position { row: 1, col: 2 };
    assert_eq!(p.up(&dims), Some(Position { row: 0, col: 2 }));
    assert_eq!(p.down(&dims), Some(Position { row: 2, col: 2 }));
    assert_eq!(p.left(&dims), Some(Position { row: 1, col: 1 }));
    assert_eq!(p.right(&dims), Some(Position { row: 1, col: 3 }));
}

#[test]
fn neighbours_stop_at_the_edges() {
    let dims = Dimension { rows: 3, cols: 4 };
    let top_left = Position { row: 0, col: 0 };
    assert_eq!(top_left.up(&dims), None);
    assert_eq!(top_left.left(&dims), None);
    assert_eq!(top_left.down(&dims), Some(Position { row: 1, col: 0 }));
    assert_eq!(top_left.right(&dims), Some(Position { row: 0, col: 1 }));
    let bottom_right = Position { row: 2, col: 3 };
    assert_eq!(bottom_right.down(&dims), None);
    assert_eq!(bottom_right.right(&dims), None);
    assert_eq!(bottom_right.up(&dims), Some(Position { row: 1, col: 3 }));
    assert_eq!(bottom_right.left(&dims), Some(Position { row: 2, col: 2 }));
}

#[test]
fn neighbours_in_an_extent_without_cells() {
    let dims = Dimension { rows: 0, cols: 0 };
    let p = Position { row: 0, col: 0 };
    assert_eq!(p.down(&dims), None);
    assert_eq!(p.right(&dims), None);
    let far = Position { row: usize::MAX, col: usize::MAX };
    let wide = Dimension { rows: usize::MAX, cols: usize::MAX };
    assert_eq!(far.down(&wide), None);
    assert_eq!(far.right(&wide), None);
}

#[test]
fn fill_borders_sets_the_ring_and_keeps_the_interior() {
    let mut matrix = vec![
        vec![0, 0, 0, 0, 0],
        vec![0, 2, 3, 4, 0],
        vec![0, 5, 6, 7, 0],
        vec![0, 0, 0, 0, 0],
    ];
    fill_borders(&mut matrix, 1);
    assert_eq!(
        matrix,
        vec![
            vec![1, 1, 1, 1, 1],
            vec![1, 2, 3, 4, 1],
            vec![1, 5, 6, 7, 1],
            vec![1, 1, 1, 1, 1],
        ]
    );
}

#[test]
fn fill_borders_twice_is_fill_borders_once() {
    let mut once = vec![vec![0, 3, 0], vec![4, 5, 6], vec![0, 7, 0], vec![8, 9, 8]];
    fill_borders(&mut once, 2);
    let mut twice = once.clone();
    fill_borders(&mut twice, 2);
    assert_eq!(once, twice);
}

#[test]
fn fill_borders_of_two_by_two_fills_everything() {
    let mut matrix = grid_of(2, 2, 0);
    fill_borders(&mut matrix, 1);
    assert_eq!(matrix, grid_of(2, 2, 1));
}

#[test]
fn fill_borders_of_a_single_cell() {
    let mut matrix = grid_of(1, 1, 0);
    fill_borders(&mut matrix, 7);
    assert_eq!(matrix, vec![vec![7]]);
}

#[test]
fn fill_borders_of_a_single_row_and_a_single_column() {
    let mut row = grid_of(1, 4, 0);
    fill_borders(&mut row, 1);
    assert_eq!(row, grid_of(1, 4, 1));
    let mut column = grid_of(4, 1, 0);
    fill_borders(&mut column, 1);
    assert_eq!(column, grid_of(4, 1, 1));
}

#[test]
fn fill_borders_of_rows_of_different_length() {
    let mut matrix = vec![vec![0, 0], vec![0, 0, 0, 0], vec![0, 0, 0]];
    fill_borders(&mut matrix, 1);
    assert_eq!(matrix, vec![vec![1, 1], vec![1, 0, 0, 1], vec![1, 1, 1]]);
}

#[test]
fn noise_tile_is_on_below_the_density() {
    assert_eq!(noise_tile(57, 58, 1, 0), 1);
    assert_eq!(noise_tile(58, 58, 1, 0), 0);
    assert_eq!(noise_tile(59, 58, 1, 0), 0);
    assert_eq!(noise_tile(1, 1, 1, 0), 0);
    assert_eq!(noise_tile(1, 2, 1, 0), 1);
    assert_eq!(noise_tile(100, 100, 1, 0), 0);
    assert_eq!(noise_tile(100, 101, 8, 9), 8);
    assert_eq!(noise_tile(0, 0, 8, 9), 9);
}

#[test]
fn draws_range_from_one_to_a_hundred() {
    assert_eq!(DRAW_MIN, 1);
    assert_eq!(DRAW_MAX, 100);
}

#[test]
fn noise_at_density_zero_and_one_is_all_off() {
    for density in [0u8, 1u8] {
        let mut matrix = grid_of(20, 30, 5);
        noise_matrix(&mut matrix, density, 1, 0);
        assert_eq!(matrix, grid_of(20, 30, 0));
    }
}

#[test]
fn noise_above_density_hundred_is_all_on() {
    for density in [101u8, 200u8, 255u8] {
        let mut matrix = grid_of(20, 30, 5);
        noise_matrix(&mut matrix, density, 1, 0);
        assert_eq!(matrix, grid_of(20, 30, 1));
    }
}

#[test]
fn noise_at_half_density_mixes_both_tiles() {
    let mut matrix = grid_of(70, 70, 9);
    noise_matrix(&mut matrix, 50, 1, 0);
    assert_eq!(matrix.len(), 70);
    let mut on = 0usize;
    let mut off = 0usize;
    for row in matrix.iter() {
        assert_eq!(row.len(), 70);
        for tile in row.iter() {
            assert!(*tile == 1 || *tile == 0);
            if *tile == 1 {
                on += 1;
            } else {
                off += 1;
            }
        }
    }
    assert_eq!(on + off, 4900);
    assert!(on > 0);
    assert!(off > 0);
}

#[test]
fn noise_at_density_hundred_has_off_tiles_only_for_the_draw_hundred() {
    // A draw is on when it is below the density, so at density 100 only the draw 100
    // is off: about one cell in a hundred.
    let mut matrix = grid_of(100, 100, 9);
    noise_matrix(&mut matrix, 100, 1, 0);
    let off = matrix.iter().flatten().filter(|t| **t == 0).count();
    let on = matrix.iter().flatten().filter(|t| **t == 1).count();
    assert_eq!(on + off, 10000);
    assert!(on > off);
}

#[test]
fn noise_keeps_the_shape_of_a_ragged_matrix() {
    let mut matrix = vec![vec![9; 3], Vec::new(), vec![9; 5]];
    noise_matrix(&mut matrix, 50, 1, 0);
    assert_eq!(matrix.len(), 3);
    assert_eq!(matrix[0].len(), 3);
    assert_eq!(matrix[1].len(), 0);
    assert_eq!(matrix[2].len(), 5);
    assert!(matrix.iter().flatten().all(|t| *t == 0 || *t == 1));
}

#[test]
fn noise_on_a_matrix_without_rows() {
    let mut matrix: Matrix = Vec::new();
    noise_matrix(&mut matrix, 50, 1, 0);
    assert!(matrix.is_empty());
}

#[test]
fn rows_of_equal_length_are_told_from_ragged_ones() {
    assert!(has_equal_rows(&Vec::new()));
    assert!(has_equal_rows(&vec![Vec::new(), Vec::new()]));
    assert!(has_equal_rows(&grid_of(3, 4, 0)));
    assert!(has_equal_rows(&vec![vec![1u8]]));
    assert!(!has_equal_rows(&vec![vec![1u8, 2u8], vec![3u8]]));
    assert!(!has_equal_rows(&vec![vec![1u8], vec![2u8], vec![3u8, 4u8]]));
    assert!(!has_equal_rows(&vec![Vec::new(), vec![1u8]]));
}
