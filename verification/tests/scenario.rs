use cavegen::matrix::{contours, fill_borders, moore_neighborhood, regions, Matrix, Position};

fn five_by_five_with_open_centre() -> Matrix {
    let mut matrix = vec![vec![1u8; 5]; 5];
    matrix[2][2] = 0;
    matrix
}

#[test]
fn a_single_open_cell_in_rock() {
    let mut matrix = five_by_five_with_open_centre();
    fill_borders(&mut matrix, 1);
    for i in 0..5 {
        for j in 0..5 {
            let expected = if i == 2 && j == 2 { 0 } else { 1 };
            assert_eq!(matrix[i][j], expected);
        }
    }
    let found = regions(&matrix, 0);
    assert_eq!(found, vec![vec![Position { row: 2, col: 2 }]]);
    assert_eq!(contours(&matrix, 0), vec![Position { row: 2, col: 2 }]);
}

#[test]
fn a_single_open_cell_in_rock_closes_with_one_pass() {
    let mut matrix = five_by_five_with_open_centre();
    fill_borders(&mut matrix, 1);
    let out = moore_neighborhood(&matrix, 1, 0).unwrap();
    assert_eq!(out, vec![vec![1u8; 5]; 5]);
    assert!(regions(&out, 0).is_empty());
    assert!(contours(&out, 0).is_empty());
    assert_eq!(regions(&out, 1).len(), 1);
}

#[test]
fn the_rock_around_a_single_open_cell() {
    let matrix = five_by_five_with_open_centre();
    let walls = regions(&matrix, 1);
    assert_eq!(walls.len(), 1);
    assert_eq!(walls[0].len(), 24);
    assert_eq!(
        contours(&matrix, 1),
        vec![
            Position { row: 1, col: 2 },
            Position { row: 2, col: 1 },
            Position { row: 2, col: 3 },
            Position { row: 3, col: 2 },
        ]
    );
}
