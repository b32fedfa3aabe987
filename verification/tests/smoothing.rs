use cavegen::matrix::{moore_neighborhood, Matrix};

fn uniform(rows: usize, cols: usize, fill: u8) -> Matrix {
    vec![vec![fill; cols]; rows]
}

#[test]
fn smoothing_a_matrix_without_rows_gives_none() {
    let matrix: Matrix = Vec::new();
    assert!(moore_neighborhood(&matrix, 1, 0).is_none());
}

#[test]
fn smoothing_a_matrix_without_columns_gives_none() {
    let matrix: Matrix = vec![Vec::new(), Vec::new(), Vec::new()];
    assert!(moore_neighborhood(&matrix, 1, 0).is_none());
}

#[test]
fn smoothing_keeps_the_dimensions() {
    let matrix = uniform(4, 9, 0);
    let out = moore_neighborhood(&matrix, 1, 0).unwrap();
    assert_eq!(out.len(), 4);
    assert!(out.iter().all(|row| row.len() == 9));
}

#[test]
fn smoothing_all_off_stays_all_off() {
    let matrix = uniform(6, 6, 0);
    assert_eq!(moore_neighborhood(&matrix, 1, 0), Some(uniform(6, 6, 0)));
}

#[test]
fn smoothing_all_on_stays_all_on() {
    let matrix = uniform(6, 6, 1);
    assert_eq!(moore_neighborhood(&matrix, 1, 0), Some(uniform(6, 6, 1)));
}

#[test]
fn smoothing_turns_a_cell_on_with_five_neighbours_on() {
    let matrix = vec![vec![1, 1, 1], vec![1, 0, 1], vec![0, 0, 0]];
    let out = moore_neighborhood(&matrix, 1, 0).unwrap();
    assert_eq!(out, vec![vec![1, 1, 1], vec![1, 1, 1], vec![0, 0, 0]]);
}

#[test]
fn smoothing_turns_a_cell_off_with_four_neighbours_on() {
    let matrix = vec![vec![1, 1, 1], vec![1, 1, 0], vec![0, 0, 0]];
    let out = moore_neighborhood(&matrix, 1, 0).unwrap();
    assert_eq!(out, vec![vec![1, 1, 1], vec![1, 0, 0], vec![0, 0, 0]]);
}

#[test]
fn smoothing_does_not_count_the_cell_itself() {
    let with_centre = vec![vec![1, 1, 0], vec![1, 1, 0], vec![1, 0, 0]];
    let without_centre = vec![vec![1, 1, 0], vec![1, 0, 0], vec![1, 0, 0]];
    assert_eq!(moore_neighborhood(&with_centre, 1, 0).unwrap()[1][1], 0);
    assert_eq!(moore_neighborhood(&without_centre, 1, 0).unwrap()[1][1], 0);
}

#[test]
fn smoothing_counts_only_the_on_value() {
    let matrix = vec![vec![7, 7, 7], vec![7, 0, 7], vec![3, 3, 3]];
    let out = moore_neighborhood(&matrix, 7, 2).unwrap();
    assert_eq!(out[1][1], 7);
    let out = moore_neighborhood(&matrix, 3, 2).unwrap();
    assert_eq!(out[1][1], 2);
}

#[test]
fn smoothing_leaves_the_outer_ring_as_it_is() {
    let matrix = vec![
        vec![0, 1, 0, 1],
        vec![1, 0, 0, 0],
        vec![0, 0, 0, 1],
        vec![1, 0, 1, 0],
    ];
    let out = moore_neighborhood(&matrix, 1, 0).unwrap();
    for i in 0..4 {
        for j in 0..4 {
            if i == 0 || i == 3 || j == 0 || j == 3 {
                assert_eq!(out[i][j], matrix[i][j]);
            }
        }
    }
    assert_eq!(out[1][1], 0);
    assert_eq!(out[1][2], 0);
    assert_eq!(out[2][1], 0);
    assert_eq!(out[2][2], 0);
}

#[test]
fn smoothing_reads_the_input_only() {
    // Cell (1,1) has five neighbours on and turns on. Cells (1,2) and (2,1) have four
    // neighbours on in the input and stay off; had they read the new (1,1) they would
    // count five.
    let matrix = vec![
        vec![1, 1, 1, 1],
        vec![1, 0, 0, 0],
        vec![1, 0, 0, 1],
        vec![0, 1, 1, 1],
    ];
    let out = moore_neighborhood(&matrix, 1, 0).unwrap();
    assert_eq!(
        out,
        vec![
            vec![1, 1, 1, 1],
            vec![1, 1, 0, 0],
            vec![1, 0, 0, 1],
            vec![0, 1, 1, 1],
        ]
    );
}

#[test]
fn smoothing_a_grid_without_interior_changes_nothing() {
    let matrix = vec![vec![1, 0, 1, 0], vec![0, 1, 0, 1]];
    assert_eq!(moore_neighborhood(&matrix, 1, 0), Some(matrix.clone()));
    let single = vec![vec![1]];
    assert_eq!(moore_neighborhood(&single, 1, 0), Some(single.clone()));
}

#[test]
fn smoothing_does_not_touch_its_input() {
    let matrix = vec![vec![1, 1, 1], vec![1, 0, 1], vec![0, 0, 0]];
    let copy = matrix.clone();
    let _ = moore_neighborhood(&matrix, 1, 0);
    assert_eq!(matrix, copy);
}
