use str8ts::grid::{Cell, CellColor, CellValue, Str8ts};

#[test]
fn values_convert_to_and_from_numbers() {
    assert_eq!(CellValue::from(0u8), CellValue::Empty);
    assert_eq!(CellValue::from(1u8), CellValue::One);
    assert_eq!(CellValue::from(5u8), CellValue::Five);
    assert_eq!(CellValue::from(9u8), CellValue::Nine);
    assert_eq!(CellValue::from(10u8), CellValue::Empty);
    assert_eq!(CellValue::from(255u8), CellValue::Empty);
    assert_eq!(CellValue::from(7usize), CellValue::Seven);
    assert_eq!(CellValue::from(70usize), CellValue::Empty);
    assert_eq!(u8::from(CellValue::Empty), 0);
    assert_eq!(u8::from(CellValue::Three), 3);
    assert_eq!(usize::from(CellValue::Nine), 9);
    assert_eq!(usize::from(CellValue::Empty), 0);
}

#[test]
fn values_convert_to_and_from_characters() {
    assert_eq!(CellValue::from('1'), CellValue::One);
    assert_eq!(CellValue::from('9'), CellValue::Nine);
    assert_eq!(CellValue::from('0'), CellValue::Empty);
    assert_eq!(CellValue::from('x'), CellValue::Empty);
    assert_eq!(char::from(CellValue::Empty), ' ');
    assert_eq!(char::from(CellValue::Four), '4');
    for d in 0u8..=9 {
        let v = CellValue::from(d);
        assert_eq!(u8::from(v), d);
        assert_eq!(CellValue::from(char::from(v)), v);
    }
}

#[test]
fn walk_over_values_with_empty() {
    let mut iter = CellValue::into_iter(true);
    assert_eq!(iter.next(), Some(CellValue::Empty));
    assert_eq!(iter.next(), Some(CellValue::One));
    assert_eq!(iter.next(), Some(CellValue::Two));
    assert_eq!(iter.next(), Some(CellValue::Three));
    assert_eq!(iter.next(), Some(CellValue::Four));
    assert_eq!(iter.next(), Some(CellValue::Five));
    assert_eq!(iter.next(), Some(CellValue::Six));
    assert_eq!(iter.next(), Some(CellValue::Seven));
    assert_eq!(iter.next(), Some(CellValue::Eight));
    assert_eq!(iter.next(), Some(CellValue::Nine));
    assert_eq!(iter.next(), None);
    assert_eq!(iter.next(), None);
}

#[test]
fn walk_over_values_without_empty() {
    let mut iter = CellValue::into_iter(false);
    assert_eq!(iter.next(), Some(CellValue::One));
    assert_eq!(iter.next(), Some(CellValue::Two));
    assert_eq!(iter.next(), Some(CellValue::Three));
    assert_eq!(iter.next(), Some(CellValue::Four));
    assert_eq!(iter.next(), Some(CellValue::Five));
    assert_eq!(iter.next(), Some(CellValue::Six));
    assert_eq!(iter.next(), Some(CellValue::Seven));
    assert_eq!(iter.next(), Some(CellValue::Eight));
    assert_eq!(iter.next(), Some(CellValue::Nine));
    assert_eq!(iter.next(), None);
}

#[test]
fn defaults_are_white_and_empty() {
    assert_eq!(CellColor::default(), CellColor::White);
    assert_eq!(CellValue::default(), CellValue::Empty);
    assert_eq!(Cell::default(), Cell::new(CellColor::White, CellValue::Empty));
    assert_eq!(CellColor::White.name(), "White");
    assert_eq!(CellColor::Black.name(), "Black");
}

#[test]
fn new_grid_is_blank() {
    let grid = Str8ts::new();
    for index in 0u8..81 {
        assert_eq!(grid.get_cell_by_index(index), Cell::default());
    }
}

#[test]
fn set_and_get_by_row_and_column_and_by_index() {
    let mut grid = Str8ts::new();
    let cell = Cell::new(CellColor::Black, CellValue::Seven);
    grid.set_cell(2, 5, cell);
    assert_eq!(grid.get_cell(2, 5), cell);
    assert_eq!(grid.get_cell_by_index(23), cell);
    assert_eq!(grid.get_cell(5, 2), Cell::default());
    grid.set_cell_by_index(80, cell);
    assert_eq!(grid.get_cell(8, 8), cell);
    grid.set_cell_value(0, 1, CellValue::Three);
    assert_eq!(grid.get_cell_by_index(1), Cell::new(CellColor::White, CellValue::Three));
    grid.set_cell_color_by_index(1, CellColor::Black);
    assert_eq!(grid.get_cell(0, 1), Cell::new(CellColor::Black, CellValue::Three));
    grid.set_cell_value_by_index(1, CellValue::Empty);
    assert_eq!(grid.get_cell(0, 1), Cell::new(CellColor::Black, CellValue::Empty));
    grid.set_cell_color(0, 1, CellColor::White);
    assert_eq!(grid.get_cell(0, 1), Cell::default());
}

#[test]
fn toggle_flips_the_colour_and_keeps_the_value() {
    let mut grid = Str8ts::new();
    grid.set_cell_value(4, 4, CellValue::Two);
    grid.toggle_cell_color(4, 4);
    assert_eq!(grid.get_cell(4, 4), Cell::new(CellColor::Black, CellValue::Two));
    grid.toggle_cell_color_by_index(40);
    assert_eq!(grid.get_cell(4, 4), Cell::new(CellColor::White, CellValue::Two));
}

#[test]
fn copy_and_clear() {
    let mut source = Str8ts::new();
    source.set_cell(1, 1, Cell::new(CellColor::Black, CellValue::Nine));
    source.set_cell(8, 0, Cell::new(CellColor::White, CellValue::One));
    let mut grid = Str8ts::new();
    grid.set_cell(3, 3, Cell::new(CellColor::Black, CellValue::Empty));
    grid.copy_from(&source);
    assert_eq!(grid, source);
    grid.clear_values();
    assert_eq!(grid.get_cell(1, 1), Cell::new(CellColor::Black, CellValue::Empty));
    assert_eq!(grid.get_cell(8, 0), Cell::default());
    grid.clear_all();
    assert_eq!(grid, Str8ts::new());
}

#[test]
fn walk_over_cells_goes_row_by_row() {
    let mut grid = Str8ts::new();
    grid.set_cell(0, 1, Cell::new(CellColor::Black, CellValue::Four));
    grid.set_cell(8, 8, Cell::new(CellColor::White, CellValue::Six));
    let mut iter = grid.into_iter();
    let mut seen = Vec::new();
    while let Some(cell) = iter.next() {
        seen.push(cell);
    }
    assert_eq!(seen.len(), 81);
    assert_eq!(seen[1], Cell::new(CellColor::Black, CellValue::Four));
    assert_eq!(seen[80], Cell::new(CellColor::White, CellValue::Six));
    assert_eq!(seen[0], Cell::default());
    assert_eq!(iter.next(), None);
}
