use str8ts::compartments::{
    find_compartments, find_compartments_along, find_compartments_cols, find_compartments_rows, Axis,
};
use str8ts::grid::{CellColor, Str8ts};

fn all_black() -> Str8ts {
    let mut grid = Str8ts::new();
    for index in 0u8..81 {
        grid.set_cell_color_by_index(index, CellColor::Black);
    }
    grid
}

#[test]
fn blank_grid_has_one_compartment_per_line() {
    let grid = Str8ts::new();
    let rows = find_compartments_rows(&grid);
    assert_eq!(rows.len(), 9);
    for (r, run) in rows.iter().enumerate() {
        let expected: Vec<u8> = (0u8..9).map(|c| r as u8 * 9 + c).collect();
        assert_eq!(run, &expected);
    }
    let cols = find_compartments_cols(&grid);
    assert_eq!(cols.len(), 9);
    for (c, run) in cols.iter().enumerate() {
        let expected: Vec<u8> = (0u8..9).map(|r| r * 9 + c as u8).collect();
        assert_eq!(run, &expected);
    }
    let all = find_compartments(&grid);
    assert_eq!(all.len(), 18);
    assert_eq!(&all[..9], &rows[..]);
    assert_eq!(&all[9..], &cols[..]);
}

#[test]
fn black_grid_has_no_compartment() {
    let grid = all_black();
    assert!(find_compartments_rows(&grid).is_empty());
    assert!(find_compartments_cols(&grid).is_empty());
    assert!(find_compartments(&grid).is_empty());
}

#[test]
fn alternating_row_gives_five_singletons() {
    let mut grid = all_black();
    for col in [0u8, 2, 4, 6, 8] {
        grid.set_cell_color(0, col, CellColor::White);
    }
    let rows = find_compartments_rows(&grid);
    assert_eq!(rows, vec![vec![0u8], vec![2], vec![4], vec![6], vec![8]]);
    let cols = find_compartments_cols(&grid);
    assert_eq!(cols, vec![vec![0u8], vec![2], vec![4], vec![6], vec![8]]);
}

#[test]
fn black_cell_splits_a_row_and_a_column() {
    let mut grid = Str8ts::new();
    grid.set_cell_color(3, 4, CellColor::Black);
    let rows = find_compartments_along(&grid, Axis::Row);
    assert_eq!(rows.len(), 10);
    assert_eq!(rows[3], vec![27u8, 28, 29, 30]);
    assert_eq!(rows[4], vec![32u8, 33, 34, 35]);
    assert_eq!(rows[5], vec![36u8, 37, 38, 39, 40, 41, 42, 43, 44]);
    let cols = find_compartments_along(&grid, Axis::Column);
    assert_eq!(cols.len(), 10);
    assert_eq!(cols[4], vec![4u8, 13, 22]);
    assert_eq!(cols[5], vec![40u8, 49, 58, 67, 76]);
}

#[test]
fn black_cells_at_the_ends_of_a_line() {
    let mut grid = Str8ts::new();
    grid.set_cell_color(0, 0, CellColor::Black);
    grid.set_cell_color(0, 8, CellColor::Black);
    let rows = find_compartments_rows(&grid);
    assert_eq!(rows[0], vec![1u8, 2, 3, 4, 5, 6, 7]);
    assert_eq!(rows.len(), 9);
}

#[test]
fn every_white_cell_is_in_one_compartment_of_each_axis() {
    let mut grid = Str8ts::new();
    for index in [3u8, 4, 12, 30, 31, 40, 41, 42, 57, 66, 75, 80] {
        grid.set_cell_color_by_index(index, CellColor::Black);
    }
    for runs in [find_compartments_rows(&grid), find_compartments_cols(&grid)] {
        let mut count = [0usize; 81];
        for run in runs.iter() {
            assert!(!run.is_empty());
            for index in run.iter() {
                count[*index as usize] += 1;
            }
        }
        for index in 0u8..81 {
            let white = grid.get_cell_by_index(index).color == CellColor::White;
            assert_eq!(count[index as usize], if white { 1 } else { 0 });
        }
    }
    let mut twice = [0usize; 81];
    for run in find_compartments(&grid).iter() {
        for index in run.iter() {
            twice[*index as usize] += 1;
        }
    }
    for index in 0u8..81 {
        let white = grid.get_cell_by_index(index).color == CellColor::White;
        assert_eq!(twice[index as usize], if white { 2 } else { 0 });
    }
}
