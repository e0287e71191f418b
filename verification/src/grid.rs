//! The nine by nine grid of a Str8ts puzzle: colours, digits, cells and the
//! grid itself, with its accessors and editing operations.

use vstd::prelude::*;
use vstd::std_specs::convert::FromSpecImpl;

verus! {

/// Whether a cell is to be filled (white) or is a wall (black).
#[derive(Debug, Clone, Copy, PartialEq, Eq, Structural)]
pub enum CellColor {
    White,
    Black,
}

impl Default for CellColor {
    fn default() -> (r: Self)
        ensures
            r == CellColor::White,
    {
        CellColor::White
    }
}

impl CellColor {
    /// The other colour.
    pub open spec fn flipped(self) -> CellColor {
        match self {
            CellColor::White => CellColor::Black,
            CellColor::Black => CellColor::White,
        }
    }

    /// The colour's name in English.
    pub fn name(&self) -> (r: &'static str)
        ensures
            *self == CellColor::White ==> r@ == "White"@,
            *self == CellColor::Black ==> r@ == "Black"@,
    {
        match self {
            CellColor::White => "White",
            CellColor::Black => "Black",
        }
    }
}

/// What a cell holds: nothing, or one of the digits 1 to 9.
#[derive(Debug, Clone, Copy, PartialEq, Eq, Hash, Structural)]
pub enum CellValue {
    Empty,
    One,
    Two,
    Three,
    Four,
    Five,
    Six,
    Seven,
    Eight,
    Nine,
}

impl Default for CellValue {
    fn default() -> (r: Self)
        ensures
            r == CellValue::Empty,
    {
        CellValue::Empty
    }
}

impl CellValue {
    /// The digit as a number; 0 stands for `Empty`.
    pub open spec fn digit(self) -> int {
        match self {
            CellValue::Empty => 0,
            CellValue::One => 1,
            CellValue::Two => 2,
            CellValue::Three => 3,
            CellValue::Four => 4,
            CellValue::Five => 5,
            CellValue::Six => 6,
            CellValue::Seven => 7,
            CellValue::Eight => 8,
            CellValue::Nine => 9,
        }
    }

    /// The value with the given number; every number outside 1 to 9 gives
    /// `Empty`.
    pub open spec fn of_digit(d: int) -> CellValue {
        if d == 1 {
            CellValue::One
        } else if d == 2 {
            CellValue::Two
        } else if d == 3 {
            CellValue::Three
        } else if d == 4 {
            CellValue::Four
        } else if d == 5 {
            CellValue::Five
        } else if d == 6 {
            CellValue::Six
        } else if d == 7 {
            CellValue::Seven
        } else if d == 8 {
            CellValue::Eight
        } else if d == 9 {
            CellValue::Nine
        } else {
            CellValue::Empty
        }
    }

    /// The character that shows the value; a blank stands for `Empty`.
    pub open spec fn glyph(self) -> char {
        match self {
            CellValue::Empty => ' ',
            CellValue::One => '1',
            CellValue::Two => '2',
            CellValue::Three => '3',
            CellValue::Four => '4',
            CellValue::Five => '5',
            CellValue::Six => '6',
            CellValue::Seven => '7',
            CellValue::Eight => '8',
            CellValue::Nine => '9',
        }
    }

    /// The value that a character shows; every character but '1' to '9'
    /// gives `Empty`.
    pub open spec fn of_glyph(c: char) -> CellValue {
        if c == '1' {
            CellValue::One
        } else if c == '2' {
            CellValue::Two
        } else if c == '3' {
            CellValue::Three
        } else if c == '4' {
            CellValue::Four
        } else if c == '5' {
            CellValue::Five
        } else if c == '6' {
            CellValue::Six
        } else if c == '7' {
            CellValue::Seven
        } else if c == '8' {
            CellValue::Eight
        } else if c == '9' {
            CellValue::Nine
        } else {
            CellValue::Empty
        }
    }

    /// The values from the one numbered `d` up to `Nine`, in order.
    pub open spec fn values_from(d: int) -> Seq<CellValue> {
        Seq::new(
            if d <= 10 {
                (10 - d) as nat
            } else {
                0
            },
            |j: int| CellValue::of_digit(d + j),
        )
    }

    /// All values in ascending order, `Empty` first if it is asked for.
    pub open spec fn all_values(with_empty: bool) -> Seq<CellValue> {
        if with_empty {
            CellValue::values_from(0)
        } else {
            CellValue::values_from(1)
        }
    }

    /// A walk over all values in ascending order, with or without `Empty`.
    pub fn into_iter(with_empty: bool) -> (r: CellValueIterator)
        ensures
            r.remaining() == CellValue::all_values(with_empty),
    {
        let r = CellValueIterator { value: CellValue::Empty, is_first: with_empty };
        proof {
            assert(r.remaining() =~= CellValue::all_values(with_empty));
        }
        r
    }
}

/// Numbers and values correspond one to one on 1 to 9 and `Empty` is 0.
pub proof fn lemma_digit_round_trip(v: CellValue)
    ensures
        0 <= v.digit() <= 9,
        CellValue::of_digit(v.digit()) == v,
        CellValue::of_glyph(v.glyph()) == v,
{
}

impl From<u8> for CellValue {
    fn from(value: u8) -> (r: Self) {
        if value == 1 {
            CellValue::One
        } else if value == 2 {
            CellValue::Two
        } else if value == 3 {
            CellValue::Three
        } else if value == 4 {
            CellValue::Four
        } else if value == 5 {
            CellValue::Five
        } else if value == 6 {
            CellValue::Six
        } else if value == 7 {
            CellValue::Seven
        } else if value == 8 {
            CellValue::Eight
        } else if value == 9 {
            CellValue::Nine
        } else {
            CellValue::Empty
        }
    }
}

impl FromSpecImpl<u8> for CellValue {
    open spec fn obeys_from_spec() -> bool {
        true
    }

    open spec fn from_spec(v: u8) -> Self {
        CellValue::of_digit(v as int)
    }
}

impl From<usize> for CellValue {
    fn from(value: usize) -> (r: Self) {
        if value == 1 {
            CellValue::One
        } else if value == 2 {
            CellValue::Two
        } else if value == 3 {
            CellValue::Three
        } else if value == 4 {
            CellValue::Four
        } else if value == 5 {
            CellValue::Five
        } else if value == 6 {
            CellValue::Six
        } else if value == 7 {
            CellValue::Seven
        } else if value == 8 {
            CellValue::Eight
        } else if value == 9 {
            CellValue::Nine
        } else {
            CellValue::Empty
        }
    }
}

impl FromSpecImpl<usize> for CellValue {
    open spec fn obeys_from_spec() -> bool {
        true
    }

    open spec fn from_spec(v: usize) -> Self {
        CellValue::of_digit(v as int)
    }
}

impl From<CellValue> for u8 {
    fn from(value: CellValue) -> (r: Self) {
        match value {
            CellValue::One => 1,
            CellValue::Two => 2,
            CellValue::Three => 3,
            CellValue::Four => 4,
            CellValue::Five => 5,
            CellValue::Six => 6,
            CellValue::Seven => 7,
            CellValue::Eight => 8,
            CellValue::Nine => 9,
            CellValue::Empty => 0,
        }
    }
}

impl FromSpecImpl<CellValue> for u8 {
    open spec fn obeys_from_spec() -> bool {
        true
    }

    open spec fn from_spec(v: CellValue) -> Self {
        v.digit() as u8
    }
}

impl From<CellValue> for usize {
    fn from(value: CellValue) -> (r: Self) {
        match value {
            CellValue::One => 1,
            CellValue::Two => 2,
            CellValue::Three => 3,
            CellValue::Four => 4,
            CellValue::Five => 5,
            CellValue::Six => 6,
            CellValue::Seven => 7,
            CellValue::Eight => 8,
            CellValue::Nine => 9,
            CellValue::Empty => 0,
        }
    }
}

impl FromSpecImpl<CellValue> for usize {
    open spec fn obeys_from_spec() -> bool {
        true
    }

    open spec fn from_spec(v: CellValue) -> Self {
        v.digit() as usize
    }
}

impl From<char> for CellValue {
    fn from(c: char) -> (r: Self) {
        if c == '1' {
            CellValue::One
        } else if c == '2' {
            CellValue::Two
        } else if c == '3' {
            CellValue::Three
        } else if c == '4' {
            CellValue::Four
        } else if c == '5' {
            CellValue::Five
        } else if c == '6' {
            CellValue::Six
        } else if c == '7' {
            CellValue::Seven
        } else if c == '8' {
            CellValue::Eight
        } else if c == '9' {
            CellValue::Nine
        } else {
            CellValue::Empty
        }
    }
}

impl FromSpecImpl<char> for CellValue {
    open spec fn obeys_from_spec() -> bool {
        true
    }

    open spec fn from_spec(c: char) -> Self {
        CellValue::of_glyph(c)
    }
}

impl From<CellValue> for char {
    fn from(value: CellValue) -> (r: Self) {
        match value {
            CellValue::One => '1',
            CellValue::Two => '2',
            CellValue::Three => '3',
            CellValue::Four => '4',
            CellValue::Five => '5',
            CellValue::Six => '6',
            CellValue::Seven => '7',
            CellValue::Eight => '8',
            CellValue::Nine => '9',
            CellValue::Empty => ' ',
        }
    }
}

impl FromSpecImpl<CellValue> for char {
    open spec fn obeys_from_spec() -> bool {
        true
    }

    open spec fn from_spec(v: CellValue) -> Self {
        v.glyph()
    }
}

/// A walk over the values in ascending order.
pub struct CellValueIterator {
    value: CellValue,
    is_first: bool,
}

impl CellValueIterator {
    /// The values that are still to come, next one first.
    pub closed spec fn remaining(&self) -> Seq<CellValue> {
        if self.is_first {
            CellValue::values_from(0)
        } else {
            CellValue::values_from(self.value.digit() + 1)
        }
    }

    /// Hands out the next value, or `None` once `Nine` has been handed out.
    pub fn next(&mut self) -> (r: Option<CellValue>)
        ensures
            old(self).remaining().len() == 0 ==> r.is_none() && final(self).remaining().len() == 0,
            old(self).remaining().len() > 0 ==> r == Some(old(self).remaining()[0])
                && final(self).remaining() == old(self).remaining().drop_first(),
    {
        if self.is_first {
            self.is_first = false;
            self.value = CellValue::Empty;
            proof {
                assert(final(self).remaining() =~= old(self).remaining().drop_first());
            }
            Some(self.value)
        } else {
            let new_value = match self.value {
                CellValue::Empty => Some(CellValue::One),
                CellValue::One => Some(CellValue::Two),
                CellValue::Two => Some(CellValue::Three),
                CellValue::Three => Some(CellValue::Four),
                CellValue::Four => Some(CellValue::Five),
                CellValue::Five => Some(CellValue::Six),
                CellValue::Six => Some(CellValue::Seven),
                CellValue::Seven => Some(CellValue::Eight),
                CellValue::Eight => Some(CellValue::Nine),
                CellValue::Nine => None,
            };
            if let Some(value) = new_value {
                self.value = value;
                proof {
                    assert(final(self).remaining() =~= old(self).remaining().drop_first());
                }
                Some(self.value)
            } else {
                None
            }
        }
    }
}

/// One cell of the grid: its colour and what it holds.
#[derive(Debug, Clone, Copy, PartialEq, Eq, Structural)]
pub struct Cell {
    pub color: CellColor,
    pub value: CellValue,
}

impl Default for Cell {
    fn default() -> (r: Self)
        ensures
            r == Cell::blank(),
    {
        Cell { color: CellColor::White, value: CellValue::Empty }
    }
}

impl Cell {
    /// The white cell that holds nothing.
    pub open spec fn blank() -> Cell {
        Cell { color: CellColor::White, value: CellValue::Empty }
    }

    /// The cell of that colour with that value.
    pub fn new(color: CellColor, value: CellValue) -> (r: Self)
        ensures
            r.color == color,
            r.value == value,
    {
        Cell { color, value }
    }

    /// A cell that is to be filled.
    pub open spec fn is_white(self) -> bool {
        self.color == CellColor::White
    }

    /// A black cell that carries a digit.
    pub open spec fn is_black_clue(self) -> bool {
        self.color == CellColor::Black && self.value != CellValue::Empty
    }

    /// Tests whether the cell is a black cell that carries a digit.
    pub fn carries_black_clue(&self) -> (r: bool)
        ensures
            r == self.is_black_clue(),
    {
        match self.color {
            CellColor::Black => self.value != CellValue::Empty,
            CellColor::White => false,
        }
    }
}

/// The grid: nine rows of nine cells.
#[derive(Debug, Clone, Copy, PartialEq, Eq)]
pub struct Str8ts {
    pub cells: [[Cell; 9]; 9],
}

impl View for Str8ts {
    type V = Seq<Cell>;

    /// The 81 cells row by row: the cell at `row`, `col` stands at
    /// `row * 9 + col`.
    open spec fn view(&self) -> Seq<Cell> {
        Seq::new(81, |i: int| self.cells[i / 9][i % 9])
    }
}

impl Str8ts {
    /// The grid of 81 blank white cells.
    pub fn new() -> (r: Self)
        ensures
            r@ == Seq::new(81, |i: int| Cell::blank()),
    {
        let r = Str8ts { cells: [[Cell { color: CellColor::White, value: CellValue::Empty }; 9]; 9] };
        proof {
            assert(r@ =~= Seq::new(81, |i: int| Cell::blank()));
        }
        r
    }

    /// Puts `cell` at `row`, `col`.
    pub fn set_cell(&mut self, row: u8, col: u8, cell: Cell)
        requires
            row < 9,
            col < 9,
        ensures
            final(self)@ == old(self)@.update(row * 9 + col, cell),
    {
        self.cells[row as usize][col as usize] = cell;
        proof {
            assert(final(self)@ =~= old(self)@.update(row * 9 + col, cell));
        }
    }

    /// Puts `cell` at the flat index `index`.
    pub fn set_cell_by_index(&mut self, index: u8, cell: Cell)
        requires
            index < 81,
        ensures
            final(self)@ == old(self)@.update(index as int, cell),
    {
        let (row, col) = (index / 9, index % 9);
        self.set_cell(row, col, cell);
    }

    /// Gives the cell at `row`, `col` the colour and keeps its value.
    pub fn set_cell_color(&mut self, row: u8, col: u8, color: CellColor)
        requires
            row < 9,
            col < 9,
        ensures
            final(self)@ == old(self)@.update(
                row * 9 + col,
                (Cell { color, value: old(self)@[row * 9 + col].value }),
            ),
    {
        self.cells[row as usize][col as usize].color = color;
        proof {
            assert(final(self)@ =~= old(self)@.update(
                row * 9 + col,
                (Cell { color, value: old(self)@[row * 9 + col].value }),
            ));
        }
    }

    /// Gives the cell at the flat index `index` the colour and keeps its
    /// value.
    pub fn set_cell_color_by_index(&mut self, index: u8, color: CellColor)
        requires
            index < 81,
        ensures
            final(self)@ == old(self)@.update(
                index as int,
                (Cell { color, value: old(self)@[index as int].value }),
            ),
    {
        let (row, col) = (index / 9, index % 9);
        self.set_cell_color(row, col, color);
    }

    /// Gives the cell at `row`, `col` the value and keeps its colour.
    pub fn set_cell_value(&mut self, row: u8, col: u8, value: CellValue)
        requires
            row < 9,
            col < 9,
        ensures
            final(self)@ == old(self)@.update(
                row * 9 + col,
                (Cell { color: old(self)@[row * 9 + col].color, value }),
            ),
    {
        self.cells[row as usize][col as usize].value = value;
        proof {
            assert(final(self)@ =~= old(self)@.update(
                row * 9 + col,
                (Cell { color: old(self)@[row * 9 + col].color, value }),
            ));
        }
    }

    /// Gives the cell at the flat index `index` the value and keeps its
    /// colour.
    pub fn set_cell_value_by_index(&mut self, index: u8, value: CellValue)
        requires
            index < 81,
        ensures
            final(self)@ == old(self)@.update(
                index as int,
                (Cell { color: old(self)@[index as int].color, value }),
            ),
    {
        let (row, col) = (index / 9, index % 9);
        self.set_cell_value(row, col, value);
    }

    /// The cell at `row`, `col`.
    pub fn get_cell(&self, row: u8, col: u8) -> (r: Cell)
        requires
            row < 9,
            col < 9,
        ensures
            r == self@[row * 9 + col],
    {
        self.cells[row as usize][col as usize]
    }

    /// The cell at the flat index `index`.
    pub fn get_cell_by_index(&self, index: u8) -> (r: Cell)
        requires
            index < 81,
        ensures
            r == self@[index as int],
    {
        let (row, col) = (index / 9, index % 9);
        self.get_cell(row, col)
    }

    /// Turns the cell at `row`, `col` from white to black or from black to
    /// white and keeps its value.
    pub fn toggle_cell_color(&mut self, row: u8, col: u8)
        requires
            row < 9,
            col < 9,
        ensures
            final(self)@ == old(self)@.update(
                row * 9 + col,
                (Cell {
                    color: old(self)@[row * 9 + col].color.flipped(),
                    value: old(self)@[row * 9 + col].value,
                }),
            ),
    {
        let cell = self.get_cell(row, col);
        match cell.color {
            CellColor::White => self.set_cell_color(row, col, CellColor::Black),
            CellColor::Black => self.set_cell_color(row, col, CellColor::White),
        }
    }

    /// Turns the cell at the flat index `index` from white to black or from
    /// black to white and keeps its value.
    pub fn toggle_cell_color_by_index(&mut self, index: u8)
        requires
            index < 81,
        ensures
            final(self)@ == old(self)@.update(
                index as int,
                (Cell {
                    color: old(self)@[index as int].color.flipped(),
                    value: old(self)@[index as int].value,
                }),
            ),
    {
        let (row, col) = (index / 9, index % 9);
        self.toggle_cell_color(row, col);
    }

    /// Makes every cell equal to the cell of `other` in the same place.
    pub fn copy_from(&mut self, other: &Str8ts)
        ensures
            final(self)@ == other@,
    {
        let mut row: u8 = 0;
        while row < 9
            invariant
                row <= 9,
                forall|i: int| 0 <= i < row * 9 ==> self@[i] == other@[i],
            decreases 9 - row,
        {
            let mut col: u8 = 0;
            while col < 9
                invariant
                    row < 9,
                    col <= 9,
                    forall|i: int| 0 <= i < row * 9 + col ==> self@[i] == other@[i],
                decreases 9 - col,
            {
                let other_cell = other.get_cell(row, col);
                self.set_cell_color(row, col, other_cell.color);
                self.set_cell_value(row, col, other_cell.value);
                col += 1;
            }
            row += 1;
        }
        proof {
            assert(self@ =~= other@);
        }
    }

    /// Makes every cell white and empty.
    pub fn clear_all(&mut self)
        ensures
            final(self)@ == Seq::new(81, |i: int| Cell::blank()),
    {
        let mut row: u8 = 0;
        while row < 9
            invariant
                row <= 9,
                forall|i: int| 0 <= i < row * 9 ==> self@[i] == Cell::blank(),
            decreases 9 - row,
        {
            let mut col: u8 = 0;
            while col < 9
                invariant
                    row < 9,
                    col <= 9,
                    forall|i: int| 0 <= i < row * 9 + col ==> self@[i] == Cell::blank(),
                decreases 9 - col,
            {
                self.set_cell_color(row, col, CellColor::White);
                self.set_cell_value(row, col, CellValue::Empty);
                col += 1;
            }
            row += 1;
        }
        proof {
            assert(self@ =~= Seq::new(81, |i: int| Cell::blank()));
        }
    }

    /// Empties every cell and keeps its colour.
    pub fn clear_values(&mut self)
        ensures
            final(self)@ == Seq::new(
                81,
                |i: int| (Cell { color: old(self)@[i].color, value: CellValue::Empty }),
            ),
    {
        let mut row: u8 = 0;
        while row < 9
            invariant
                row <= 9,
                forall|i: int|
                    0 <= i < row * 9 ==> self@[i] == (Cell {
                        color: old(self)@[i].color,
                        value: CellValue::Empty,
                    }),
                forall|i: int| row * 9 <= i < 81 ==> self@[i] == old(self)@[i],
            decreases 9 - row,
        {
            let mut col: u8 = 0;
            while col < 9
                invariant
                    row < 9,
                    col <= 9,
                    forall|i: int|
                        0 <= i < row * 9 + col ==> self@[i] == (Cell {
                            color: old(self)@[i].color,
                            value: CellValue::Empty,
                        }),
                    forall|i: int| row * 9 + col <= i < 81 ==> self@[i] == old(self)@[i],
                decreases 9 - col,
            {
                self.set_cell_value(row, col, CellValue::Empty);
                col += 1;
            }
            row += 1;
        }
        proof {
            assert(self@ =~= Seq::new(
                81,
                |i: int| (Cell { color: old(self)@[i].color, value: CellValue::Empty }),
            ));
        }
    }

    /// A walk over the 81 cells, row by row.
    pub fn into_iter(self) -> (r: Str8tsIterator)
        ensures
            r.grid() == self,
            r.position() == 0,
    {
        Str8tsIterator { str8ts: self, index: 0 }
    }
}

/// A walk over the cells of a grid, row by row.
pub struct Str8tsIterator {
    str8ts: Str8ts,
    index: u8,
}

impl Str8tsIterator {
    /// The grid that is walked over.
    pub closed spec fn grid(&self) -> Str8ts {
        self.str8ts
    }

    /// How many cells have been handed out.
    pub closed spec fn position(&self) -> int {
        self.index as int
    }

    /// Hands out the next cell, or `None` after the last one.
    pub fn next(&mut self) -> (r: Option<Cell>)
        ensures
            final(self).grid() == old(self).grid(),
            old(self).position() < 81 ==> r == Some(old(self).grid()@[old(self).position()])
                && final(self).position() == old(self).position() + 1,
            old(self).position() >= 81 ==> r.is_none() && final(self).position() == old(
                self,
            ).position(),
    {
        if self.index < 81 {
            let value = self.str8ts.get_cell_by_index(self.index);
            self.index += 1;
            Some(value)
        } else {
            None
        }
    }
}

} // verus!
