use cavegen::matrix::{contours, regions, Matrix, Position};
use std::collections::BTreeSet;

fn at(row: usize, col: usize) -> Position {
    Position { row, col }
}

fn cells(list: &[Position]) -> BTreeSet<(usize, usize)> {
    list.iter().map(|p| (p.row, p.col)).collect()
}

fn pairs(list: &[(usize, usize)]) -> BTreeSet<(usize, usize)> {
    list.iter().copied().collect()
}

#[test]
fn regions_of_a_matrix_without_cells() {
    let empty: Matrix = Vec::new();
    assert!(regions(&empty, 0).is_empty());
    let hollow: Matrix = vec![Vec::new(), Vec::new()];
    assert!(regions(&hollow, 0).is_empty());
}

#[test]
fn regions_of_a_value_that_no_cell_holds() {
    let matrix = vec![vec![1, 1], vec![1, 1]];
    assert!(regions(&matrix, 0).is_empty());
}

#[test]
fn regions_of_a_uniform_grid_is_the_whole_grid() {
    let matrix = vec![vec![4; 5]; 3];
    let found = regions(&matrix, 4);
    assert_eq!(found.len(), 1);
    assert_eq!(found[0].len(), 15);
    assert_eq!(found[0][0], at(0, 0));
    let mut all = Vec::new();
    for i in 0..3 {
        for j in 0..5 {
            all.push((i, j));
        }
    }
    assert_eq!(cells(&found[0]), pairs(&all));
}

#[test]
fn regions_do_not_join_over_a_corner() {
    let matrix = vec![vec![0, 1, 1], vec![1, 0, 1], vec![1, 1, 0]];
    let found = regions(&matrix, 0);
    assert_eq!(found, vec![vec![at(0, 0)], vec![at(1, 1)], vec![at(2, 2)]]);
}

#[test]
fn regions_come_in_scan_order_with_their_first_cell_first() {
    let matrix = vec![
        vec![1, 0, 1, 1, 0],
        vec![1, 0, 1, 0, 0],
        vec![1, 1, 1, 1, 1],
        vec![0, 0, 1, 0, 1],
    ];
    let found = regions(&matrix, 0);
    assert_eq!(found.len(), 4);
    assert_eq!(found[0][0], at(0, 1));
    assert_eq!(found[1][0], at(0, 4));
    assert_eq!(found[2][0], at(3, 0));
    assert_eq!(found[3][0], at(3, 3));
    assert_eq!(cells(&found[0]), pairs(&[(0, 1), (1, 1)]));
    assert_eq!(cells(&found[1]), pairs(&[(0, 4), (1, 3), (1, 4)]));
    assert_eq!(cells(&found[2]), pairs(&[(3, 0), (3, 1)]));
    assert_eq!(cells(&found[3]), pairs(&[(3, 3)]));
}

#[test]
fn regions_of_the_other_value_of_the_same_grid() {
    let matrix = vec![
        vec![1, 0, 1, 1, 0],
        vec![1, 0, 1, 0, 0],
        vec![1, 1, 1, 1, 1],
        vec![0, 0, 1, 0, 1],
    ];
    let found = regions(&matrix, 1);
    assert_eq!(found.len(), 1);
    assert_eq!(found[0][0], at(0, 0));
    assert_eq!(found[0].len(), 12);
}

#[test]
fn a_region_lists_its_cells_breadth_first() {
    // From the first cell the fill visits the cells above, below, left and right, in
    // that order, and then their neighbours.
    let matrix = vec![vec![1, 0, 1], vec![0, 0, 0], vec![1, 0, 1]];
    let found = regions(&matrix, 0);
    assert_eq!(
        found,
        vec![vec![at(0, 1), at(1, 1), at(2, 1), at(1, 0), at(1, 2)]]
    );
}

#[test]
fn a_region_follows_a_winding_path() {
    let matrix = vec![
        vec![0, 0, 0, 0, 0],
        vec![1, 1, 1, 1, 0],
        vec![0, 0, 0, 1, 0],
        vec![0, 1, 0, 1, 0],
        vec![0, 1, 0, 0, 0],
    ];
    let found = regions(&matrix, 0);
    assert_eq!(found.len(), 1);
    assert_eq!(found[0].len(), 17);
    let walls = regions(&matrix, 1);
    assert_eq!(walls.len(), 2);
    assert_eq!(cells(&walls[0]), pairs(&[(1, 0), (1, 1), (1, 2), (1, 3), (2, 3), (3, 3)]));
    assert_eq!(cells(&walls[1]), pairs(&[(3, 1), (4, 1)]));
}

#[test]
fn regions_split_the_matching_cells() {
    let matrix = vec![
        vec![0, 1, 0, 0, 1, 0],
        vec![1, 1, 0, 1, 1, 0],
        vec![0, 0, 0, 1, 0, 0],
        vec![1, 0, 1, 1, 0, 1],
        vec![1, 0, 1, 0, 0, 1],
    ];
    for value in [0u8, 1u8] {
        let found = regions(&matrix, value);
        let mut seen = BTreeSet::new();
        let mut total = 0usize;
        for region in found.iter() {
            assert!(!region.is_empty());
            for p in region.iter() {
                assert_eq!(matrix[p.row][p.col], value);
                assert!(seen.insert((p.row, p.col)), "a cell is listed twice");
            }
            total += region.len();
        }
        let matching = matrix.iter().flatten().filter(|t| **t == value).count();
        assert_eq!(total, matching);
        assert_eq!(seen.len(), matching);
    }
}

#[test]
fn cells_of_one_region_touch_and_cells_of_two_do_not() {
    let matrix = vec![
        vec![0, 1, 0, 0, 1, 0],
        vec![1, 1, 0, 1, 1, 0],
        vec![0, 0, 0, 1, 0, 0],
        vec![1, 0, 1, 1, 0, 1],
        vec![1, 0, 1, 0, 0, 1],
    ];
    let found = regions(&matrix, 1);
    let touching = |p: &Position, q: &Position| {
        (p.row == q.row && (p.col + 1 == q.col || q.col + 1 == p.col))
            || (p.col == q.col && (p.row + 1 == q.row || q.row + 1 == p.row))
    };
    for (a, first) in found.iter().enumerate() {
        // Every cell but the first touches a cell listed before it.
        for (k, p) in first.iter().enumerate().skip(1) {
            assert!(first[..k].iter().any(|q| touching(p, q)));
        }
        for (b, second) in found.iter().enumerate() {
            if a != b {
                for p in first.iter() {
                    for q in second.iter() {
                        assert!(!touching(p, q));
                    }
                }
            }
        }
    }
    assert_eq!(found.len(), 4);
}

#[test]
fn regions_of_a_single_row() {
    let matrix = vec![vec![0, 0, 1, 0, 1, 1, 0]];
    let found = regions(&matrix, 0);
    assert_eq!(
        found,
        vec![vec![at(0, 0), at(0, 1)], vec![at(0, 3)], vec![at(0, 6)]]
    );
}

#[test]
fn contours_of_a_uniform_grid_are_empty() {
    let matrix = vec![vec![1; 4]; 4];
    assert!(contours(&matrix, 1).is_empty());
    assert!(contours(&matrix, 0).is_empty());
}

#[test]
fn contours_of_a_matrix_without_cells_are_empty() {
    let empty: Matrix = Vec::new();
    assert!(contours(&empty, 1).is_empty());
    let hollow: Matrix = vec![Vec::new()];
    assert!(contours(&hollow, 1).is_empty());
}

#[test]
fn contours_are_the_cells_that_touch_another_value() {
    let matrix = vec![
        vec![1, 1, 1, 1, 1],
        vec![1, 1, 0, 1, 1],
        vec![1, 1, 1, 1, 1],
    ];
    assert_eq!(contours(&matrix, 0), vec![at(1, 2)]);
    assert_eq!(
        contours(&matrix, 1),
        vec![at(0, 2), at(1, 1), at(1, 3), at(2, 2)]
    );
}

#[test]
fn the_edge_of_the_grid_makes_no_contour() {
    let matrix = vec![vec![1, 1, 1], vec![1, 1, 1], vec![0, 0, 0]];
    assert_eq!(contours(&matrix, 1), vec![at(1, 0), at(1, 1), at(1, 2)]);
    assert_eq!(contours(&matrix, 0), vec![at(2, 0), at(2, 1), at(2, 2)]);
    let single = vec![vec![5]];
    assert!(contours(&single, 5).is_empty());
}

#[test]
fn a_corner_neighbour_makes_no_contour() {
    let matrix = vec![vec![0, 1, 1], vec![1, 1, 1], vec![1, 1, 1]];
    assert_eq!(contours(&matrix, 1), vec![at(0, 1), at(1, 0)]);
    assert_eq!(contours(&matrix, 0), vec![at(0, 0)]);
}

#[test]
fn contours_count_any_other_value() {
    let matrix = vec![vec![2, 2, 2], vec![2, 7, 2], vec![2, 2, 9]];
    assert_eq!(
        contours(&matrix, 2),
        vec![at(0, 1), at(1, 0), at(1, 2), at(2, 1)]
    );
    assert_eq!(contours(&matrix, 7), vec![at(1, 1)]);
    assert_eq!(contours(&matrix, 9), vec![at(2, 2)]);
    assert!(contours(&matrix, 4).is_empty());
}

#[test]
fn contours_match_a_count_cell_by_cell() {
    let matrix = vec![
        vec![0, 1, 0, 0, 1, 0],
        vec![1, 1, 0, 1, 1, 0],
        vec![0, 0, 0, 1, 0, 0],
        vec![1, 0, 1, 1, 0, 1],
        vec![1, 1, 1, 0, 0, 1],
    ];
    for value in [0u8, 1u8] {
        let found = contours(&matrix, value);
        let mut expected = Vec::new();
        for i in 0..5usize {
            for j in 0..6usize {
                if matrix[i][j] != value {
                    continue;
                }
                let mut differs = false;
                if i > 0 && matrix[i - 1][j] != value {
                    differs = true;
                }
                if i + 1 < 5 && matrix[i + 1][j] != value {
                    differs = true;
                }
                if j > 0 && matrix[i][j - 1] != value {
                    differs = true;
                }
                if j + 1 < 6 && matrix[i][j + 1] != value {
                    differs = true;
                }
                if differs {
                    expected.push(at(i, j));
                }
            }
        }
        assert_eq!(found, expected);
    }
}
