use str8ts::compartments::{find_compartments, find_compartments_cols, find_compartments_rows};
use str8ts::correspondence::Refusal;
use str8ts::grid::{Cell, CellColor, CellValue, Str8ts};
use str8ts::model::{Model, VarKind};

/// The digit at a cell of a square in which every row and every column
/// holds 1 to 9.
fn square_digit(index: u8) -> u8 {
    (index / 9 + index % 9) % 9 + 1
}

/// The point of the model that stands for a filling of the cells: a cell
/// holds its digit, and the least digit of a compartment is the least of
/// its cells' digits.
fn point_for(grid: &Str8ts, model: &Model, digit_of: &dyn Fn(u8) -> u8) -> Vec<bool> {
    let compartments = find_compartments(grid);
    model
        .vars
        .iter()
        .map(|v| match v.kind {
            VarKind::Digit { cell, digit } => digit_of(cell) == digit,
            VarKind::Minimum { compartment, digit } => {
                let least = compartments[compartment].iter().map(|c| digit_of(*c)).min();
                least == Some(digit)
            }
        })
        .collect()
}

fn point_for_square(grid: &Str8ts, model: &Model) -> Vec<bool> {
    point_for(grid, model, &square_digit)
}

fn square_with_walls(walls: &[(u8, CellValue)]) -> Str8ts {
    let mut grid = Str8ts::new();
    for index in 0u8..81 {
        grid.set_cell_value_by_index(index, CellValue::from(square_digit(index)));
    }
    for (index, value) in walls {
        grid.set_cell_by_index(*index, Cell::new(CellColor::Black, *value));
    }
    grid
}

#[test]
fn values_are_ordered_by_their_digits() {
    assert!(CellValue::Empty < CellValue::One);
    assert!(CellValue::One < CellValue::Two);
    assert!(CellValue::Eight < CellValue::Nine);
    assert!(CellValue::Nine > CellValue::Empty);
    assert!(!(CellValue::Five < CellValue::Five));
    assert!(CellValue::Five <= CellValue::Five);
    assert_eq!(
        CellValue::Three.partial_cmp(&CellValue::Seven),
        Some(std::cmp::Ordering::Less)
    );
    assert_eq!(
        CellValue::Seven.partial_cmp(&CellValue::Seven),
        Some(std::cmp::Ordering::Equal)
    );
    assert_eq!(
        CellValue::Seven.partial_cmp(&CellValue::Empty),
        Some(std::cmp::Ordering::Greater)
    );
}

#[test]
fn black_cell_with_a_digit_carries_a_clue() {
    assert!(Cell::new(CellColor::Black, CellValue::Two).carries_black_clue());
    assert!(!Cell::new(CellColor::Black, CellValue::Empty).carries_black_clue());
    assert!(!Cell::new(CellColor::White, CellValue::Two).carries_black_clue());
    assert!(!Cell::default().carries_black_clue());
}

#[test]
fn black_clues_of_a_line_must_differ() {
    let mut grid = Str8ts::new();
    assert!(grid.clues_are_distinct());
    grid.set_cell(2, 1, Cell::new(CellColor::Black, CellValue::Four));
    grid.set_cell(2, 7, Cell::new(CellColor::Black, CellValue::Five));
    grid.set_cell(6, 1, Cell::new(CellColor::Black, CellValue::Five));
    grid.set_cell(6, 2, Cell::new(CellColor::Black, CellValue::Empty));
    grid.set_cell(6, 3, Cell::new(CellColor::Black, CellValue::Empty));
    grid.set_cell(5, 5, Cell::new(CellColor::White, CellValue::Five));
    grid.set_cell(5, 6, Cell::new(CellColor::White, CellValue::Five));
    assert!(grid.clues_are_distinct());
    let mut row = grid;
    row.set_cell(2, 4, Cell::new(CellColor::Black, CellValue::Five));
    assert!(!row.clues_are_distinct());
    let mut column = grid;
    column.set_cell(0, 1, Cell::new(CellColor::Black, CellValue::Four));
    assert!(!column.clues_are_distinct());
}

#[test]
fn compartments_end_at_black_cells_or_edges() {
    let mut grid = Str8ts::new();
    for index in [0u8, 5, 13, 27, 40, 44, 45, 62, 70, 71, 80] {
        grid.set_cell_color_by_index(index, CellColor::Black);
    }
    let white = |row: i32, col: i32| {
        (0..9).contains(&row)
            && (0..9).contains(&col)
            && grid.get_cell(row as u8, col as u8).color == CellColor::White
    };
    for run in find_compartments_rows(&grid) {
        let (first, last) = (run[0] as i32, run[run.len() - 1] as i32);
        assert_eq!(first / 9, last / 9);
        assert_eq!(last - first, run.len() as i32 - 1);
        for (e, index) in run.iter().enumerate() {
            assert_eq!(*index as i32, first + e as i32);
        }
        assert!(!white(first / 9, first % 9 - 1));
        assert!(!white(last / 9, last % 9 + 1));
    }
    for run in find_compartments_cols(&grid) {
        let (first, last) = (run[0] as i32, run[run.len() - 1] as i32);
        assert_eq!(first % 9, last % 9);
        assert_eq!(last - first, 9 * (run.len() as i32 - 1));
        for (e, index) in run.iter().enumerate() {
            assert_eq!(*index as i32, first + 9 * e as i32);
        }
        assert!(!white(first / 9 - 1, first % 9));
        assert!(!white(last / 9 + 1, last % 9));
    }
}

#[test]
fn square_with_an_empty_wall_is_a_completion() {
    let solved = square_with_walls(&[(0, CellValue::Empty)]);
    let mut grid = solved;
    grid.clear_values();
    let model = grid.encode();
    assert_eq!(model.vars.len(), 80 * 9 + 18 * 9);
    let values = point_for_square(&grid, &model);
    assert!(model.is_satisfied_by(&values));
    assert_eq!(grid.solve(Some(&values)), Some(solved));
}

#[test]
fn wall_with_a_digit_excludes_it_from_its_row_and_column() {
    let fits = square_with_walls(&[(0, CellValue::One)]);
    let mut grid = fits;
    for index in 1u8..81 {
        grid.set_cell_value_by_index(index, CellValue::Empty);
    }
    let model = grid.encode();
    let values = point_for_square(&grid, &model);
    assert!(model.is_satisfied_by(&values));
    assert_eq!(grid.solve(Some(&values)), Some(fits));

    let mut clash = grid;
    clash.set_cell_value_by_index(0, CellValue::Five);
    let model = clash.encode();
    let values = point_for_square(&clash, &model);
    assert!(!model.is_satisfied_by(&values));
}

#[test]
fn digits_of_a_compartment_must_be_consecutive() {
    // the wall in the middle of the square leaves 5 6 7 8 and 1 2 3 4 in its
    // row and in its column
    let solved = square_with_walls(&[(40, CellValue::Empty)]);
    let mut grid = solved;
    grid.clear_values();
    let model = grid.encode();
    let values = point_for_square(&grid, &model);
    assert!(model.is_satisfied_by(&values));
    assert_eq!(grid.solve(Some(&values)), Some(solved));
}

#[test]
fn distinct_digits_that_are_not_consecutive_are_refused() {
    // one white row with a wall in the middle: two runs of four cells, and
    // every column a run of one cell
    let mut grid = Str8ts::new();
    for index in 0u8..81 {
        if index >= 9 || index == 4 {
            grid.set_cell_color_by_index(index, CellColor::Black);
        }
    }
    let model = grid.encode();
    let straight = [1u8, 2, 3, 4, 0, 6, 7, 8, 9];
    let values = point_for(&grid, &model, &|cell| straight[cell as usize]);
    assert!(model.is_satisfied_by(&values));
    let solved = grid.solve(Some(&values)).unwrap();
    for col in 0u8..9 {
        assert_eq!(solved.get_cell(0, col).value, CellValue::from(straight[col as usize]));
    }
    let shifted = [3u8, 2, 5, 4, 0, 9, 7, 8, 6];
    let values = point_for(&grid, &model, &|cell| shifted[cell as usize]);
    assert!(model.is_satisfied_by(&values));
    let swapped = [1u8, 2, 3, 6, 0, 4, 7, 8, 9];
    let values = point_for(&grid, &model, &|cell| swapped[cell as usize]);
    assert!(!model.is_satisfied_by(&values));
    let gap = [1u8, 2, 3, 5, 0, 6, 7, 8, 9];
    let values = point_for(&grid, &model, &|cell| gap[cell as usize]);
    assert!(!model.is_satisfied_by(&values));
    let twice = [1u8, 2, 3, 4, 0, 4, 5, 6, 7];
    let values = point_for(&grid, &model, &|cell| twice[cell as usize]);
    assert!(!model.is_satisfied_by(&values));
}

#[test]
fn solved_grid_has_one_feasible_reading() {
    let solved = square_with_walls(&[(40, CellValue::Empty), (41, CellValue::One)]);
    assert!(solved.clues_are_distinct());
    let model = solved.encode();
    let values = point_for_square(&solved, &model);
    assert!(model.is_satisfied_by(&values));
    assert_eq!(solved.solve(Some(&values)), Some(solved));
    assert_eq!(solved.extract(&values), solved);
}

#[test]
fn complete_tests_the_grid_and_the_answer() {
    let solved = square_with_walls(&[(40, CellValue::Empty), (41, CellValue::One)]);
    let mut grid = solved;
    grid.clear_values();
    grid.set_cell_value_by_index(41, CellValue::One);
    let model = grid.encode();
    let values = point_for_square(&grid, &model);
    assert_eq!(grid.complete(Some(&values)), Ok(Some(solved)));
    assert_eq!(grid.complete(None), Ok(None));
    let mut wrong = values.clone();
    wrong[0] = !wrong[0];
    assert_eq!(grid.complete(Some(&wrong)), Err(Refusal::NotFeasible));
    assert_eq!(grid.complete(Some(&Vec::new())), Err(Refusal::NotFeasible));
    let mut clash = grid;
    clash.set_cell(4, 0, Cell::new(CellColor::Black, CellValue::One));
    assert_eq!(clash.complete(Some(&values)), Err(Refusal::ClashingClues));
    assert_eq!(clash.complete(None), Err(Refusal::ClashingClues));
}
