use cavegen::flood::{blank_table, flood_fill};
use cavegen::matrix::{Dimension, Position};

fn here(row: usize, col: usize) -> Position {
    Position { row, col }
}

#[test]
fn a_blank_table_has_no_marks() {
    let table = blank_table(&Dimension { rows: 3, cols: 5 });
    assert_eq!(table, vec![vec![false; 5]; 3]);
    assert!(blank_table(&Dimension { rows: 0, cols: 4 }).is_empty());
    assert_eq!(blank_table(&Dimension { rows: 2, cols: 0 }), vec![Vec::<bool>::new(); 2]);
}

#[test]
fn a_flood_fill_marks_the_region_of_its_seed() {
    let matrix = vec![
        vec![0, 0, 1, 0],
        vec![1, 0, 1, 0],
        vec![1, 0, 0, 1],
    ];
    let dims = Dimension { rows: 3, cols: 4 };
    let mut table = blank_table(&dims);
    let region = flood_fill(&matrix, 0, &dims, &mut table, here(0, 0));
    assert_eq!(
        region,
        vec![here(0, 0), here(0, 1), here(1, 1), here(2, 1), here(2, 2)]
    );
    assert_eq!(
        table,
        vec![
            vec![true, true, false, false],
            vec![false, true, false, false],
            vec![false, true, true, false],
        ]
    );
    let second = flood_fill(&matrix, 0, &dims, &mut table, here(0, 3));
    assert_eq!(second, vec![here(0, 3), here(1, 3)]);
    assert_eq!(
        table,
        vec![
            vec![true, true, false, true],
            vec![false, true, false, true],
            vec![false, true, true, false],
        ]
    );
}

#[test]
fn a_flood_fill_from_the_middle_starts_with_its_seed() {
    let matrix = vec![vec![5, 5, 5], vec![5, 5, 5]];
    let dims = Dimension { rows: 2, cols: 3 };
    let mut table = blank_table(&dims);
    let region = flood_fill(&matrix, 5, &dims, &mut table, here(1, 1));
    assert_eq!(
        region,
        vec![here(1, 1), here(0, 1), here(1, 0), here(1, 2), here(0, 0), here(0, 2)]
    );
    assert_eq!(table, vec![vec![true; 3]; 2]);
}
