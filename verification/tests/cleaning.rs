use cavegen::matrix::{regions, Matrix, Position};
use cavegen::prune::{fill_region, keep_largest_region, largest_region, prune_small_regions};

fn spot(row: usize, col: usize) -> Position {
    Position { row, col }
}

fn sample() -> Matrix {
    vec![
        vec![1, 1, 1, 1, 1, 1, 1],
        vec![1, 0, 0, 1, 0, 0, 1],
        vec![1, 0, 1, 1, 0, 1, 1],
        vec![1, 0, 0, 1, 0, 0, 1],
        vec![1, 1, 0, 0, 1, 0, 1],
        vec![1, 0, 0, 1, 1, 0, 1],
        vec![1, 1, 1, 1, 1, 1, 1],
    ]
}

#[test]
fn largest_region_of_no_regions_is_none() {
    assert_eq!(largest_region(&Vec::new()), None);
}

#[test]
fn largest_region_takes_the_first_of_the_largest() {
    let a = vec![spot(0, 0)];
    let b = vec![spot(1, 0), spot(1, 1), spot(1, 2)];
    let c = vec![spot(2, 0), spot(2, 1)];
    let d = vec![spot(3, 0), spot(3, 1), spot(3, 2)];
    assert_eq!(largest_region(&vec![a.clone()]), Some(0));
    assert_eq!(largest_region(&vec![a.clone(), b.clone(), c.clone(), d.clone()]), Some(1));
    assert_eq!(largest_region(&vec![d.clone(), c.clone(), b.clone()]), Some(0));
    assert_eq!(largest_region(&vec![a.clone(), c.clone(), b.clone()]), Some(2));
}

#[test]
fn fill_region_sets_the_listed_cells_only() {
    let mut matrix = vec![vec![0, 1, 2], vec![3, 4, 5]];
    fill_region(&mut matrix, &vec![spot(0, 2), spot(1, 0), spot(0, 2)], 9);
    assert_eq!(matrix, vec![vec![0, 1, 9], vec![9, 4, 5]]);
    fill_region(&mut matrix, &Vec::new(), 7);
    assert_eq!(matrix, vec![vec![0, 1, 9], vec![9, 4, 5]]);
}

#[test]
fn pruning_erases_regions_up_to_the_threshold() {
    let walls = vec![
        vec![0, 0, 0, 0, 0, 0, 0, 0],
        vec![0, 1, 0, 1, 1, 0, 1, 0],
        vec![0, 0, 0, 1, 0, 0, 1, 0],
        vec![0, 1, 0, 0, 0, 0, 1, 0],
        vec![0, 1, 0, 1, 1, 0, 1, 0],
        vec![0, 1, 0, 1, 1, 0, 0, 0],
    ];
    // Regions of 1: {(1,1)} size 1, {(1,3),(1,4),(2,3)} size 3, {(1,6),(2,6),(3,6),(4,6)}
    // size 4, {(3,1),(4,1),(5,1)} size 3, {(4,3),(4,4),(5,3),(5,4)} size 4.
    let mut at_three = walls.clone();
    prune_small_regions(&mut at_three, 1, 0, 3);
    assert_eq!(
        at_three,
        vec![
            vec![0, 0, 0, 0, 0, 0, 0, 0],
            vec![0, 0, 0, 0, 0, 0, 1, 0],
            vec![0, 0, 0, 0, 0, 0, 1, 0],
            vec![0, 0, 0, 0, 0, 0, 1, 0],
            vec![0, 0, 0, 1, 1, 0, 1, 0],
            vec![0, 0, 0, 1, 1, 0, 0, 0],
        ]
    );
    let mut at_two = walls.clone();
    prune_small_regions(&mut at_two, 1, 0, 2);
    assert_eq!(
        at_two,
        vec![
            vec![0, 0, 0, 0, 0, 0, 0, 0],
            vec![0, 0, 0, 1, 1, 0, 1, 0],
            vec![0, 0, 0, 1, 0, 0, 1, 0],
            vec![0, 1, 0, 0, 0, 0, 1, 0],
            vec![0, 1, 0, 1, 1, 0, 1, 0],
            vec![0, 1, 0, 1, 1, 0, 0, 0],
        ]
    );
    let mut at_zero = walls.clone();
    prune_small_regions(&mut at_zero, 1, 0, 0);
    assert_eq!(at_zero, walls);
    let mut at_four = walls.clone();
    prune_small_regions(&mut at_four, 1, 0, 4);
    assert_eq!(at_four, vec![vec![0; 8]; 6]);
}

#[test]
fn pruning_leaves_no_region_at_or_under_the_threshold() {
    for threshold in 0..8usize {
        let mut matrix = sample();
        let before = regions(&matrix, 0);
        prune_small_regions(&mut matrix, 0, 1, threshold);
        let after = regions(&matrix, 0);
        assert!(after.iter().all(|r| r.len() > threshold));
        let kept: Vec<_> = before.into_iter().filter(|r| r.len() > threshold).collect();
        assert_eq!(after, kept);
    }
}

#[test]
fn pruning_with_the_value_itself_changes_nothing() {
    let mut matrix = sample();
    prune_small_regions(&mut matrix, 0, 0, 100);
    assert_eq!(matrix, sample());
}

#[test]
fn pruning_a_matrix_without_cells() {
    let mut matrix: Matrix = Vec::new();
    prune_small_regions(&mut matrix, 1, 0, 3);
    assert!(matrix.is_empty());
    keep_largest_region(&mut matrix, 0, 1);
    assert!(matrix.is_empty());
}

#[test]
fn keeping_the_largest_region_closes_the_others() {
    // Floor regions of the sample: {(1,1),(1,2),(2,1),(3,1),(3,2),(4,2),(4,3),(5,1),(5,2)}
    // with nine cells and {(1,4),(1,5),(2,4),(3,4),(3,5),(4,5),(5,5)} with seven.
    let mut matrix = sample();
    keep_largest_region(&mut matrix, 0, 1);
    assert_eq!(
        matrix,
        vec![
            vec![1, 1, 1, 1, 1, 1, 1],
            vec![1, 0, 0, 1, 1, 1, 1],
            vec![1, 0, 1, 1, 1, 1, 1],
            vec![1, 0, 0, 1, 1, 1, 1],
            vec![1, 1, 0, 0, 1, 1, 1],
            vec![1, 0, 0, 1, 1, 1, 1],
            vec![1, 1, 1, 1, 1, 1, 1],
        ]
    );
    assert_eq!(regions(&matrix, 0).len(), 1);
}

#[test]
fn keeping_the_largest_region_takes_the_first_of_two_as_large() {
    let mut matrix = vec![
        vec![1, 0, 0, 1, 0, 1],
        vec![1, 1, 1, 1, 0, 1],
        vec![0, 1, 1, 1, 1, 1],
        vec![0, 1, 1, 0, 0, 1],
    ];
    assert_eq!(regions(&matrix, 0).iter().map(|r| r.len()).collect::<Vec<_>>(), vec![2, 2, 2, 2]);
    keep_largest_region(&mut matrix, 0, 1);
    assert_eq!(
        matrix,
        vec![
            vec![1, 0, 0, 1, 1, 1],
            vec![1, 1, 1, 1, 1, 1],
            vec![1, 1, 1, 1, 1, 1],
            vec![1, 1, 1, 1, 1, 1],
        ]
    );
}

#[test]
fn keeping_the_largest_region_of_a_value_that_no_cell_holds() {
    let mut matrix = vec![vec![1, 1], vec![1, 1]];
    keep_largest_region(&mut matrix, 0, 1);
    assert_eq!(matrix, vec![vec![1, 1], vec![1, 1]]);
}

#[test]
fn cleaning_leaves_one_floor_region() {
    let mut matrix = vec![
        vec![1, 1, 1, 1, 1, 1, 1, 1],
        vec![1, 0, 0, 0, 1, 0, 0, 1],
        vec![1, 0, 1, 0, 1, 0, 1, 1],
        vec![1, 0, 0, 0, 1, 1, 1, 1],
        vec![1, 1, 1, 0, 0, 0, 0, 1],
        vec![1, 0, 1, 0, 1, 1, 0, 1],
        vec![1, 1, 1, 1, 1, 1, 1, 1],
    ];
    let before = regions(&matrix, 0);
    assert_eq!(before.len(), 3);
    let largest = before[largest_region(&before).unwrap()].clone();
    assert_eq!(largest.len(), 14);
    keep_largest_region(&mut matrix, 0, 1);
    prune_small_regions(&mut matrix, 1, 0, 3);
    assert_eq!(
        matrix,
        vec![
            vec![1, 1, 1, 1, 1, 1, 1, 1],
            vec![1, 0, 0, 0, 1, 1, 1, 1],
            vec![1, 0, 0, 0, 1, 1, 1, 1],
            vec![1, 0, 0, 0, 1, 1, 1, 1],
            vec![1, 1, 1, 0, 0, 0, 0, 1],
            vec![1, 1, 1, 0, 1, 1, 0, 1],
            vec![1, 1, 1, 1, 1, 1, 1, 1],
        ]
    );
    let after = regions(&matrix, 0);
    assert_eq!(after.len(), 1);
    // The largest region is part of what is left, which has grown by the one wall cell
    // that the pruning opened.
    assert_eq!(after[0].len(), 15);
    for p in largest.iter() {
        assert!(after[0].contains(p));
    }
}

#[test]
fn cleaning_a_grid_of_rock_only() {
    let mut large = vec![vec![1u8; 3]; 3];
    keep_largest_region(&mut large, 0, 1);
    prune_small_regions(&mut large, 1, 0, 3);
    assert_eq!(large, vec![vec![1u8; 3]; 3]);
    let mut small = vec![vec![1u8, 1u8]];
    keep_largest_region(&mut small, 0, 1);
    prune_small_regions(&mut small, 1, 0, 3);
    assert_eq!(small, vec![vec![0u8, 0u8]]);
    assert_eq!(regions(&small, 0).len(), 1);
}
