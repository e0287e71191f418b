use str8ts::compartments::Axis;
use str8ts::grid::{Cell, CellColor, CellValue, Str8ts};
use str8ts::model::{Constraint, Rule, VarKind, Variable};

fn all_black() -> Str8ts {
    let mut grid = Str8ts::new();
    for index in 0u8..81 {
        grid.set_cell_color_by_index(index, CellColor::Black);
    }
    grid
}

/// The digit at `row`, `col` of a square in which every row and every
/// column holds 1 to 9.
fn square_digit(row: u8, col: u8) -> u8 {
    (row + col) % 9 + 1
}

/// The point of a blank grid's model that stands for the square.
fn square_point() -> Vec<bool> {
    let mut values = Vec::new();
    for index in 0u8..81 {
        for digit in 1u8..=9 {
            values.push(square_digit(index / 9, index % 9) == digit);
        }
    }
    for _ in 0..18 {
        for digit in 1u8..=9 {
            values.push(digit == 1);
        }
    }
    values
}

fn square_grid() -> Str8ts {
    let mut grid = Str8ts::new();
    for index in 0u8..81 {
        grid.set_cell_value_by_index(index, CellValue::from(square_digit(index / 9, index % 9)));
    }
    grid
}

#[test]
fn model_of_a_blank_grid_has_the_expected_size() {
    let model = Str8ts::new().encode();
    assert_eq!(model.vars.len(), 729 + 162);
    assert_eq!(model.constraints.len(), 81 + 81 + 81 + 18 + 162);
    assert_eq!(
        model.vars[0],
        Variable { kind: VarKind::Digit { cell: 0, digit: 1 }, lower: 0, upper: 1 }
    );
    assert_eq!(
        model.vars[728],
        Variable { kind: VarKind::Digit { cell: 80, digit: 9 }, lower: 0, upper: 1 }
    );
    assert_eq!(
        model.vars[729],
        Variable { kind: VarKind::Minimum { compartment: 0, digit: 1 }, lower: 0, upper: 1 }
    );
    assert_eq!(
        model.vars[730],
        Variable { kind: VarKind::Minimum { compartment: 0, digit: 2 }, lower: 0, upper: 0 }
    );
}

#[test]
fn clue_fixes_the_bounds_of_its_cell() {
    let mut grid = Str8ts::new();
    grid.set_cell_value_by_index(1, CellValue::Four);
    let model = grid.encode();
    for digit in 1u8..=9 {
        let v = model.vars[9 + digit as usize - 1];
        assert_eq!(v.kind, VarKind::Digit { cell: 1, digit });
        if digit == 4 {
            assert_eq!((v.lower, v.upper), (1, 1));
        } else {
            assert_eq!((v.lower, v.upper), (0, 0));
        }
    }
}

#[test]
fn constraints_of_a_blank_grid() {
    let model = Str8ts::new().encode();
    assert_eq!(
        model.constraints[0],
        Constraint {
            rule: Rule::CellTotal { cell: 0 },
            vars: vec![0, 1, 2, 3, 4, 5, 6, 7, 8],
            coeffs: vec![1; 9],
            lower: Some(1),
            upper: Some(1),
        }
    );
    assert_eq!(
        model.constraints[81 + 10],
        Constraint {
            rule: Rule::LineUnique { axis: Axis::Row, line: 1, digit: 2 },
            vars: (0..9).map(|c| (9 + c) * 9 + 1).collect(),
            coeffs: vec![1; 9],
            lower: None,
            upper: Some(1),
        }
    );
    assert_eq!(
        model.constraints[162 + 10],
        Constraint {
            rule: Rule::LineUnique { axis: Axis::Column, line: 1, digit: 2 },
            vars: (0..9).map(|r| (r * 9 + 1) * 9 + 1).collect(),
            coeffs: vec![1; 9],
            lower: None,
            upper: Some(1),
        }
    );
    assert_eq!(
        model.constraints[243 + 17],
        Constraint {
            rule: Rule::MinimumUnique { compartment: 17 },
            vars: (0..9).map(|j| 729 + 17 * 9 + j).collect(),
            coeffs: vec![1; 9],
            lower: Some(1),
            upper: Some(1),
        }
    );
    let mut vars: Vec<usize> = (0..9).map(|c| c * 9 + 2).collect();
    vars.push(729);
    let mut coeffs = vec![1i8; 9];
    coeffs.push(-1);
    assert_eq!(
        model.constraints[261 + 2],
        Constraint {
            rule: Rule::Straight { compartment: 0, least: 1, digit: 3 },
            vars,
            coeffs,
            lower: Some(0),
            upper: None,
        }
    );
}

#[test]
fn black_clue_excludes_its_digit_from_the_line() {
    let mut grid = all_black();
    grid.set_cell(0, 0, Cell::new(CellColor::Black, CellValue::Five));
    grid.set_cell(0, 3, Cell::new(CellColor::White, CellValue::Empty));
    let model = grid.encode();
    assert_eq!(model.vars.len(), 9 + 18);
    let clues: Vec<&Constraint> = model
        .constraints
        .iter()
        .filter(|c| matches!(c.rule, Rule::LineClue { .. }))
        .collect();
    assert_eq!(clues.len(), 1);
    assert_eq!(
        clues[0],
        &Constraint {
            rule: Rule::LineClue { axis: Axis::Row, line: 0, digit: 5 },
            vars: vec![4],
            coeffs: vec![1],
            lower: None,
            upper: Some(0),
        }
    );
    let mut values = vec![false; 27];
    values[4] = true;
    values[9 + 4] = true;
    values[18 + 4] = true;
    assert!(!model.is_satisfied_by(&values));
    let mut values = vec![false; 27];
    values[5] = true;
    values[9 + 5] = true;
    values[18 + 5] = true;
    assert!(model.is_satisfied_by(&values));
    let solved = grid.solve(Some(&values)).unwrap();
    assert_eq!(solved.get_cell(0, 3), Cell::new(CellColor::White, CellValue::Six));
    assert_eq!(solved.get_cell(0, 0), Cell::new(CellColor::Black, CellValue::Five));
}

#[test]
fn constraint_sums_the_coefficients_of_the_variables_that_are_one() {
    let c = Constraint {
        rule: Rule::Straight { compartment: 0, least: 1, digit: 1 },
        vars: vec![0, 1, 2],
        coeffs: vec![1, 1, -1],
        lower: Some(0),
        upper: None,
    };
    assert!(c.holds_for(&vec![false, false, false]));
    assert!(c.holds_for(&vec![true, false, true]));
    assert!(!c.holds_for(&vec![false, false, true]));
    assert!(c.holds_for(&vec![true, true, true]));
    let d = Constraint {
        rule: Rule::CellTotal { cell: 0 },
        vars: vec![0, 1, 2],
        coeffs: vec![1, 1, 1],
        lower: Some(1),
        upper: Some(1),
    };
    assert!(!d.holds_for(&vec![false, false, false]));
    assert!(d.holds_for(&vec![false, true, false]));
    assert!(!d.holds_for(&vec![true, true, false]));
    assert!(!d.holds_for(&vec![true, false]));
    let e = Constraint {
        rule: Rule::CellTotal { cell: 0 },
        vars: vec![0, 1],
        coeffs: vec![1],
        lower: None,
        upper: None,
    };
    assert!(!e.holds_for(&vec![true, false]));
}

#[test]
fn all_black_grid_is_solved_as_it_is() {
    let mut grid = all_black();
    grid.set_cell_value(2, 2, CellValue::Eight);
    let model = grid.encode();
    assert!(model.vars.is_empty());
    let values: Vec<bool> = Vec::new();
    assert!(model.is_satisfied_by(&values));
    let solved = grid.solve(Some(&values));
    assert_eq!(solved, Some(grid));
}

#[test]
fn nothing_found_gives_no_grid() {
    let grid = Str8ts::new();
    assert_eq!(grid.solve(None), None);
}

#[test]
fn square_completes_the_blank_grid() {
    let grid = Str8ts::new();
    let model = grid.encode();
    let values = square_point();
    assert!(model.is_satisfied_by(&values));
    let solved = grid.solve(Some(&values)).unwrap();
    assert_eq!(solved, square_grid());
    assert_eq!(grid.extract(&values), square_grid());
    assert_eq!(grid, Str8ts::new());
}

#[test]
fn point_with_a_cell_of_two_digits_is_not_feasible() {
    let model = Str8ts::new().encode();
    let mut values = square_point();
    values[1] = true;
    assert!(!model.is_satisfied_by(&values));
    let mut values = square_point();
    values.pop();
    assert!(!model.is_satisfied_by(&values));
}

#[test]
fn point_with_two_least_digits_is_not_feasible() {
    let model = Str8ts::new().encode();
    let mut values = square_point();
    values[729 + 1] = true;
    assert!(!model.is_satisfied_by(&values));
}

#[test]
fn solved_grid_is_solved_to_itself() {
    let grid = square_grid();
    let model = grid.encode();
    let values = square_point();
    assert!(model.is_satisfied_by(&values));
    assert_eq!(grid.solve(Some(&values)), Some(grid));
}

#[test]
fn same_clue_twice_in_a_row_rules_the_square_out() {
    let mut grid = Str8ts::new();
    grid.set_cell_value(0, 0, CellValue::One);
    grid.set_cell_value(0, 5, CellValue::One);
    let model = grid.encode();
    assert!(!model.is_satisfied_by(&square_point()));
    let mut values = square_point();
    for digit in 0..9 {
        values[5 * 9 + digit] = digit == 0;
    }
    assert!(!model.is_satisfied_by(&values));
}

#[test]
fn clues_are_kept() {
    let mut grid = Str8ts::new();
    grid.set_cell_value(0, 0, CellValue::One);
    grid.set_cell_value(4, 4, CellValue::Nine);
    let model = grid.encode();
    let values = square_point();
    assert!(model.is_satisfied_by(&values));
    let solved = grid.solve(Some(&values)).unwrap();
    assert_eq!(solved.get_cell(0, 0), Cell::new(CellColor::White, CellValue::One));
    assert_eq!(solved.get_cell(4, 4), Cell::new(CellColor::White, CellValue::Nine));
    let mut other = Str8ts::new();
    other.set_cell_value(0, 0, CellValue::Two);
    assert!(!other.encode().is_satisfied_by(&values));
}

#[test]
fn singletons_take_any_digit() {
    let mut grid = all_black();
    for col in [0u8, 2, 4, 6, 8] {
        grid.set_cell_color(0, col, CellColor::White);
    }
    let model = grid.encode();
    assert_eq!(model.vars.len(), 45 + 90);
    let digits = [9u8, 1, 5, 3, 7];
    let mut values = vec![false; 135];
    for (n, digit) in digits.iter().enumerate() {
        values[n * 9 + *digit as usize - 1] = true;
        values[45 + n * 9 + *digit as usize - 1] = true;
        values[45 + (5 + n) * 9 + *digit as usize - 1] = true;
    }
    assert!(model.is_satisfied_by(&values));
    let solved = grid.solve(Some(&values)).unwrap();
    for (n, digit) in digits.iter().enumerate() {
        assert_eq!(
            solved.get_cell(0, 2 * n as u8),
            Cell::new(CellColor::White, CellValue::from(*digit))
        );
    }
    values[0] = true;
    assert!(!model.is_satisfied_by(&values));
}
