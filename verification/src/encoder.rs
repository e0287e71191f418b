//! The binary model of a puzzle: which variables and constraints stand for
//! a grid and its compartments.
//!
//! For every white cell and digit there is a variable "the cell holds the
//! digit", and for every compartment and digit a variable "the least digit
//! of the compartment is this digit". The variables are numbered in the
//! order in which they are listed.

use vstd::prelude::*;
use crate::compartments::{
    find_compartments,
    grid_compartments,
    lemma_grid_compartments_shape,
    lemma_place,
    place_cell,
    runs_of,
    well_shaped,
    Axis,
};
use crate::grid::{Cell, CellColor, CellValue, Str8ts};
use crate::model::{Constraint, ConstraintView, Model, ModelView, Rule, VarKind, Variable};
use crate::selection::kept_items;

verus! {

/// The variable "cell `cell` holds `digit`" of a white cell. An empty cell
/// leaves it free; a cell that holds the digit forces it to 1, and a cell
/// that holds another digit forces it to 0.
pub open spec fn digit_variable(g: Seq<Cell>, cell: int, digit: int) -> Variable {
    Variable {
        kind: VarKind::Digit { cell: cell as u8, digit: digit as u8 },
        lower: if g[cell].value.digit() == digit {
            1
        } else {
            0
        },
        upper: if g[cell].value == CellValue::Empty || g[cell].value.digit() == digit {
            1
        } else {
            0
        },
    }
}

/// Pairs of a cell and a digit are numbered `cell * 9 + digit - 1`. Whether
/// the pair with number `t` has a variable: its cell is white.
pub open spec fn has_digit_var(g: Seq<Cell>) -> spec_fn(int) -> bool {
    |t: int| g[t / 9].is_white()
}

/// The variable of the pair with number `t`.
pub open spec fn digit_var_at(g: Seq<Cell>) -> spec_fn(int) -> Variable {
    |t: int| digit_variable(g, t / 9, t % 9 + 1)
}

/// The digit variables: nine for each white cell, cell by cell.
pub open spec fn digit_vars(g: Seq<Cell>) -> Seq<Variable> {
    kept_items(729, has_digit_var(g), digit_var_at(g))
}

/// The number of digit variables that stand before the pair with number `t`.
pub open spec fn var_place(g: Seq<Cell>, t: int) -> int {
    kept_items(t as nat, has_digit_var(g), digit_var_at(g)).len() as int
}

/// The number of the variable "cell `cell` holds `digit`".
pub open spec fn digit_var(g: Seq<Cell>, cell: int, digit: int) -> int {
    var_place(g, cell * 9 + digit - 1)
}

/// The variable "the least digit of compartment `c` is `digit`". It is
/// forced to 0 where a straight of the compartment's length that begins at
/// the digit would pass 9.
pub open spec fn minimum_variable(cs: Seq<Seq<u8>>, c: int, digit: int) -> Variable {
    Variable {
        kind: VarKind::Minimum { compartment: c as usize, digit: digit as u8 },
        lower: 0,
        upper: if cs[c].len() <= 9 - digit + 1 {
            1
        } else {
            0
        },
    }
}

/// The minimum variables: nine for each compartment.
pub open spec fn minimum_vars(cs: Seq<Seq<u8>>) -> Seq<Variable> {
    Seq::new(9 * cs.len(), |t: int| minimum_variable(cs, t / 9, t % 9 + 1))
}

/// The number of the variable "the least digit of compartment `c` is
/// `digit`", where `nx` digit variables stand before the minimum variables.
pub open spec fn minimum_var(nx: int, c: int, digit: int) -> int {
    nx + 9 * c + digit - 1
}

/// `n` coefficients 1.
pub open spec fn ones(n: nat) -> Seq<i8> {
    Seq::new(n, |j: int| 1i8)
}

/// "The cell holds exactly one digit": the nine variables of the cell sum
/// to 1.
pub open spec fn cell_total(g: Seq<Cell>, cell: int) -> ConstraintView {
    ConstraintView {
        rule: Rule::CellTotal { cell: cell as u8 },
        vars: Seq::new(9, |j: int| digit_var(g, cell, j + 1) as usize),
        coeffs: ones(9),
        lower: Some(1i8),
        upper: Some(1i8),
    }
}

/// Whether the cell with a flat index is white, as a function of the index.
pub open spec fn is_white_cell(g: Seq<Cell>) -> spec_fn(int) -> bool {
    |i: int| g[i].is_white()
}

/// The constraint `cell_total` of a cell, as a function of its flat index.
pub open spec fn cell_total_at(g: Seq<Cell>) -> spec_fn(int) -> ConstraintView {
    |i: int| cell_total(g, i)
}

/// One constraint `cell_total` for each white cell.
pub open spec fn cell_totals(g: Seq<Cell>) -> Seq<ConstraintView> {
    kept_items(81, is_white_cell(g), cell_total_at(g))
}

/// Whether the `p`-th cell of a line is white, as a function of `p`.
pub open spec fn line_white(g: Seq<Cell>, axis: Axis, line: int) -> spec_fn(int) -> bool {
    |p: int| g[place_cell(axis, line * 9 + p)].is_white()
}

/// The variable "the `p`-th cell of the line holds `digit`", as a function
/// of `p`.
pub open spec fn line_var(g: Seq<Cell>, axis: Axis, line: int, digit: int) -> spec_fn(int) -> usize {
    |p: int| digit_var(g, place_cell(axis, line * 9 + p), digit) as usize
}

/// "The digit stands at most once among the white cells of the line": the
/// variables of the digit over the white cells of the line sum to at most 1.
pub open spec fn line_unique(g: Seq<Cell>, axis: Axis, line: int, digit: int) -> ConstraintView {
    let vars = kept_items(9, line_white(g, axis, line), line_var(g, axis, line, digit));
    ConstraintView {
        rule: Rule::LineUnique { axis, line: line as u8, digit: digit as u8 },
        vars,
        coeffs: ones(vars.len()),
        lower: None,
        upper: Some(1i8),
    }
}

/// One constraint `line_unique` for each line of the axis and each digit.
pub open spec fn line_uniques(g: Seq<Cell>, axis: Axis) -> Seq<ConstraintView> {
    Seq::new(81, |t: int| line_unique(g, axis, t / 9, t % 9 + 1))
}

/// "The `p`-th cell of the line does not hold the digit of the black cell
/// at `q`": that variable alone is at most 0.
pub open spec fn line_clue(g: Seq<Cell>, axis: Axis, line: int, q: int, p: int) -> ConstraintView {
    let digit = g[place_cell(axis, line * 9 + q)].value.digit();
    ConstraintView {
        rule: Rule::LineClue { axis, line: line as u8, digit: digit as u8 },
        vars: seq![digit_var(g, place_cell(axis, line * 9 + p), digit) as usize],
        coeffs: ones(1),
        lower: None,
        upper: Some(0i8),
    }
}

/// Triples of a line and two of its cells are numbered
/// `line * 81 + q * 9 + p`. Whether the triple with number `t` has a
/// constraint: the cell at `q` is black with a digit, the cell at `p` white.
pub open spec fn has_line_clue(g: Seq<Cell>, axis: Axis) -> spec_fn(int) -> bool {
    |t: int|
        g[place_cell(axis, (t / 81) * 9 + (t / 9) % 9)].is_black_clue() && g[place_cell(
            axis,
            (t / 81) * 9 + t % 9,
        )].is_white()
}

/// The constraint of the triple with number `t`.
pub open spec fn line_clue_at(g: Seq<Cell>, axis: Axis) -> spec_fn(int) -> ConstraintView {
    |t: int| line_clue(g, axis, t / 81, (t / 9) % 9, t % 9)
}

/// One constraint `line_clue` for each black cell with a digit and each
/// white cell of the same line.
pub open spec fn line_clues(g: Seq<Cell>, axis: Axis) -> Seq<ConstraintView> {
    kept_items(729, has_line_clue(g, axis), line_clue_at(g, axis))
}

/// "The compartment has exactly one least digit": its nine minimum
/// variables sum to 1.
pub open spec fn minimum_unique(nx: int, c: int) -> ConstraintView {
    ConstraintView {
        rule: Rule::MinimumUnique { compartment: c as usize },
        vars: Seq::new(9, |j: int| minimum_var(nx, c, j + 1) as usize),
        coeffs: ones(9),
        lower: Some(1i8),
        upper: Some(1i8),
    }
}

/// One constraint `minimum_unique` for each of `count` compartments.
pub open spec fn minimum_uniques(nx: int, count: nat) -> Seq<ConstraintView> {
    Seq::new(count, |c: int| minimum_unique(nx, c))
}

/// "If the least digit of compartment `c` is `least`, one of its cells holds
/// `digit`": the variables of `digit` over the cells of the compartment,
/// less the minimum variable, sum to at least 0.
pub open spec fn straight(g: Seq<Cell>, cs: Seq<Seq<u8>>, c: int, least: int, digit: int)
    -> ConstraintView {
    ConstraintView {
        rule: Rule::Straight { compartment: c as usize, least: least as u8, digit: digit as u8 },
        vars: Seq::new(cs[c].len(), |e: int| digit_var(g, cs[c][e] as int, digit) as usize).push(
            minimum_var(digit_vars(g).len() as int, c, least) as usize,
        ),
        coeffs: ones(cs[c].len()).push(-1i8),
        lower: Some(0i8),
        upper: None,
    }
}

/// Triples of a compartment, a least digit and an offset are numbered
/// `c * 81 + (least - 1) * 9 + offset`. Whether the triple with number `t`
/// has a constraint: a straight of the compartment's length that begins at
/// `least` does not pass 9, and the offset is below the length.
pub open spec fn has_straight(cs: Seq<Seq<u8>>) -> spec_fn(int) -> bool {
    |t: int| cs[t / 81].len() <= 9 - ((t / 9) % 9 + 1) + 1 && t % 9 < cs[t / 81].len()
}

/// The constraint of the triple with number `t`.
pub open spec fn straight_at(g: Seq<Cell>, cs: Seq<Seq<u8>>) -> spec_fn(int) -> ConstraintView {
    |t: int| straight(g, cs, t / 81, (t / 9) % 9 + 1, (t / 9) % 9 + 1 + t % 9)
}

/// One constraint `straight` for each compartment, each least digit that it
/// can have, and each digit of the straight that begins there.
pub open spec fn straights(g: Seq<Cell>, cs: Seq<Seq<u8>>) -> Seq<ConstraintView> {
    kept_items(81 * cs.len(), has_straight(cs), straight_at(g, cs))
}

/// The model of a grid.
pub open spec fn model_of(g: Seq<Cell>) -> ModelView {
    let cs = grid_compartments(g);
    ModelView {
        vars: digit_vars(g) + minimum_vars(cs),
        constraints: cell_totals(g) + line_uniques(g, Axis::Row) + line_clues(g, Axis::Row)
            + line_uniques(g, Axis::Column) + line_clues(g, Axis::Column) + minimum_uniques(
            digit_vars(g).len() as int,
            cs.len(),
        ) + straights(g, cs),
    }
}

/// What a list of constraints holds, as mathematical values.
pub open spec fn views_of(v: Seq<Constraint>) -> Seq<ConstraintView> {
    Seq::new(v.len(), |k: int| v[k]@)
}

/// Whether `ids` is the table of the numbers of the digit variables.
pub open spec fn is_var_table(g: Seq<Cell>, ids: Seq<usize>) -> bool {
    ids.len() == 729 && forall|t: int| 0 <= t < 729 ==> #[trigger] ids[t] == var_place(g, t)
}

fn ones_vec(n: usize) -> (r: Vec<i8>)
    ensures
        r@ == ones(n as nat),
{
    let mut r: Vec<i8> = Vec::new();
    let mut j: usize = 0;
    while j < n
        invariant
            j <= n,
            r@ == ones(j as nat),
        decreases n - j,
    {
        r.push(1);
        j += 1;
        proof {
            assert(r@ =~= ones(j as nat));
        }
    }
    r
}

/// The digit variables of a grid, and the table of their numbers.
pub fn digit_variables(grid: &Str8ts) -> (r: (Vec<Variable>, Vec<usize>))
    ensures
        r.0@ == digit_vars(grid@),
        is_var_table(grid@, r.1@),
        r.0@.len() <= 729,
{
    let ghost g = grid@;
    let mut vars: Vec<Variable> = Vec::new();
    let mut ids: Vec<usize> = Vec::new();
    let mut t: usize = 0;
    while t < 729
        invariant
            t <= 729,
            g == grid@,
            vars@ == kept_items(t as nat, has_digit_var(g), digit_var_at(g)),
            vars@.len() <= t,
            ids@.len() == t,
            forall|s: int| 0 <= s < t ==> #[trigger] ids@[s] == var_place(g, s),
        decreases 729 - t,
    {
        let cell_index: u8 = (t / 9) as u8;
        let digit: u8 = (t % 9 + 1) as u8;
        let cell = grid.get_cell_by_index(cell_index);
        ids.push(vars.len());
        match cell.color {
            CellColor::White => {
                let held: u8 = u8::from(cell.value);
                let lower: u8 = if held == digit {
                    1
                } else {
                    0
                };
                let upper: u8 = if held == 0 || held == digit {
                    1
                } else {
                    0
                };
                let v = Variable { kind: VarKind::Digit { cell: cell_index, digit }, lower, upper };
                assert(v == digit_variable(g, (t / 9) as int, (t % 9 + 1) as int));
                vars.push(v);
            },
            CellColor::Black => {},
        }
        t += 1;
    }
    (vars, ids)
}

/// The minimum variables of a list of compartments.
pub fn minimum_variables(comps: &Vec<Vec<u8>>) -> (r: Vec<Variable>)
    requires
        comps.len() <= 162,
    ensures
        r@ == minimum_vars(runs_of(comps@)),
{
    let ghost cs = runs_of(comps@);
    let mut vars: Vec<Variable> = Vec::new();
    let mut c: usize = 0;
    while c < comps.len()
        invariant
            c <= comps.len(),
            comps.len() <= 162,
            cs == runs_of(comps@),
            vars@ == Seq::new(9 * c as nat, |t: int| minimum_variable(cs, t / 9, t % 9 + 1)),
        decreases comps.len() - c,
    {
        let len = comps[c].len();
        let mut digit: u8 = 1;
        while digit <= 9
            invariant
                1 <= digit <= 10,
                c < comps.len(),
                comps.len() <= 162,
                cs == runs_of(comps@),
                len == comps@[c as int].len(),
                vars@ == Seq::new(
                    (9 * c + digit - 1) as nat,
                    |t: int| minimum_variable(cs, t / 9, t % 9 + 1),
                ),
            decreases 10 - digit,
        {
            let upper: u8 = if len <= (10 - digit) as usize {
                1
            } else {
                0
            };
            let v = Variable { kind: VarKind::Minimum { compartment: c, digit }, lower: 0, upper };
            assert(v == minimum_variable(cs, c as int, digit as int));
            vars.push(v);
            digit += 1;
            proof {
                assert(vars@ =~= Seq::new(
                    (9 * c + digit - 1) as nat,
                    |t: int| minimum_variable(cs, t / 9, t % 9 + 1),
                ));
            }
        }
        c += 1;
    }
    vars
}

/// The constraints "each white cell holds exactly one digit".
pub fn cell_total_constraints(grid: &Str8ts, ids: &Vec<usize>) -> (r: Vec<Constraint>)
    requires
        is_var_table(grid@, ids@),
    ensures
        views_of(r@) == cell_totals(grid@),
{
    let ghost g = grid@;
    let mut out: Vec<Constraint> = Vec::new();
    let mut i: u8 = 0;
    assert(views_of(out@) =~= kept_items(0, is_white_cell(g), cell_total_at(g)));
    while i < 81
        invariant
            i <= 81,
            g == grid@,
            is_var_table(g, ids@),
            views_of(out@) == kept_items(i as nat, is_white_cell(g), cell_total_at(g)),
        decreases 81 - i,
    {
        let cell = grid.get_cell_by_index(i);
        match cell.color {
            CellColor::White => {
                let mut vars: Vec<usize> = Vec::new();
                let mut j: usize = 0;
                while j < 9
                    invariant
                        j <= 9,
                        i < 81,
                        is_var_table(g, ids@),
                        vars@ == Seq::new(j as nat, |e: int| digit_var(g, i as int, e + 1) as usize),
                    decreases 9 - j,
                {
                    vars.push(ids[i as usize * 9 + j]);
                    j += 1;
                    proof {
                        assert(vars@ =~= Seq::new(
                            j as nat,
                            |e: int| digit_var(g, i as int, e + 1) as usize,
                        ));
                    }
                }
                let c = Constraint {
                    rule: Rule::CellTotal { cell: i },
                    vars,
                    coeffs: ones_vec(9),
                    lower: Some(1),
                    upper: Some(1),
                };
                proof {
                    assert(c@ == cell_total(g, i as int));
                    assert(views_of(out@.push(c)) =~= views_of(out@).push(c@));
                }
                out.push(c);
            },
            CellColor::Black => {},
        }
        i += 1;
    }
    out
}

/// The flat index of the `pos`-th cell of a line.
fn cell_of(axis: Axis, line: u8, pos: u8) -> (r: u8)
    requires
        line < 9,
        pos < 9,
    ensures
        r == place_cell(axis, line * 9 + pos),
        r < 81,
{
    proof {
        lemma_place(axis, line as int, pos as int);
    }
    match axis {
        Axis::Row => line * 9 + pos,
        Axis::Column => pos * 9 + line,
    }
}

/// The constraints "a digit stands at most once among the white cells of a
/// line", for the lines of one axis.
pub fn line_unique_constraints(grid: &Str8ts, ids: &Vec<usize>, axis: Axis) -> (r: Vec<Constraint>)
    requires
        is_var_table(grid@, ids@),
    ensures
        views_of(r@) == line_uniques(grid@, axis),
{
    let ghost g = grid@;
    let mut out: Vec<Constraint> = Vec::new();
    let mut t: u8 = 0;
    while t < 81
        invariant
            t <= 81,
            g == grid@,
            is_var_table(g, ids@),
            views_of(out@) == Seq::new(t as nat, |s: int| line_unique(g, axis, s / 9, s % 9 + 1)),
        decreases 81 - t,
    {
        let line: u8 = t / 9;
        let digit: u8 = t % 9 + 1;
        let mut vars: Vec<usize> = Vec::new();
        let mut p: u8 = 0;
        while p < 9
            invariant
                p <= 9,
                line < 9,
                1 <= digit <= 9,
                g == grid@,
                is_var_table(g, ids@),
                vars@ == kept_items(
                    p as nat,
                    line_white(g, axis, line as int),
                    line_var(g, axis, line as int, digit as int),
                ),
            decreases 9 - p,
        {
            let index = cell_of(axis, line, p);
            let cell = grid.get_cell_by_index(index);
            match cell.color {
                CellColor::White => {
                    vars.push(ids[index as usize * 9 + digit as usize - 1]);
                },
                CellColor::Black => {},
            }
            p += 1;
        }
        let coeffs = ones_vec(vars.len());
        let c = Constraint {
            rule: Rule::LineUnique { axis, line, digit },
            vars,
            coeffs,
            lower: None,
            upper: Some(1),
        };
        proof {
            assert(c@ == line_unique(g, axis, line as int, digit as int));
            assert(c@ == line_unique(g, axis, t as int / 9, t as int % 9 + 1));
            assert(views_of(out@.push(c)) =~= views_of(out@).push(c@));
            assert(views_of(out@).push(c@) =~= Seq::new(
                (t + 1) as nat,
                |s: int| line_unique(g, axis, s / 9, s % 9 + 1),
            ));
        }
        out.push(c);
        t += 1;
    }
    out
}

/// The constraints "a white cell does not hold the digit of a black cell of
/// its line", for the lines of one axis.
pub fn line_clue_constraints(grid: &Str8ts, ids: &Vec<usize>, axis: Axis) -> (r: Vec<Constraint>)
    requires
        is_var_table(grid@, ids@),
    ensures
        views_of(r@) == line_clues(grid@, axis),
{
    let ghost g = grid@;
    let mut out: Vec<Constraint> = Vec::new();
    let mut t: usize = 0;
    assert(views_of(out@) =~= kept_items(0, has_line_clue(g, axis), line_clue_at(g, axis)));
    while t < 729
        invariant
            t <= 729,
            g == grid@,
            is_var_table(g, ids@),
            views_of(out@) == kept_items(t as nat, has_line_clue(g, axis), line_clue_at(g, axis)),
        decreases 729 - t,
    {
        let line: u8 = (t / 81) as u8;
        let q: u8 = ((t / 9) % 9) as u8;
        let p: u8 = (t % 9) as u8;
        let clue_cell = grid.get_cell_by_index(cell_of(axis, line, q));
        let index = cell_of(axis, line, p);
        let cell = grid.get_cell_by_index(index);
        let digit: u8 = u8::from(clue_cell.value);
        let is_clue = match clue_cell.color {
            CellColor::Black => digit != 0,
            CellColor::White => false,
        };
        let is_white = match cell.color {
            CellColor::White => true,
            CellColor::Black => false,
        };
        assert(is_clue == clue_cell.is_black_clue());
        if is_clue && is_white {
            let mut vars: Vec<usize> = Vec::new();
            vars.push(ids[index as usize * 9 + digit as usize - 1]);
            let c = Constraint {
                rule: Rule::LineClue { axis, line, digit },
                vars,
                coeffs: ones_vec(1),
                lower: None,
                upper: Some(0),
            };
            proof {
                assert(c@.vars =~= line_clue(g, axis, line as int, q as int, p as int).vars);
                assert(c@ == line_clue(g, axis, line as int, q as int, p as int));
                assert(views_of(out@.push(c)) =~= views_of(out@).push(c@));
            }
            out.push(c);
        }
        t += 1;
    }
    out
}

/// The constraints "a compartment has exactly one least digit".
pub fn minimum_unique_constraints(nx: usize, count: usize) -> (r: Vec<Constraint>)
    requires
        nx <= 729,
        count <= 162,
    ensures
        views_of(r@) == minimum_uniques(nx as int, count as nat),
{
    let mut out: Vec<Constraint> = Vec::new();
    let mut c: usize = 0;
    while c < count
        invariant
            c <= count,
            nx <= 729,
            count <= 162,
            views_of(out@) == minimum_uniques(nx as int, c as nat),
        decreases count - c,
    {
        let mut vars: Vec<usize> = Vec::new();
        let mut j: usize = 0;
        while j < 9
            invariant
                j <= 9,
                nx <= 729,
                c < 162,
                vars@ == Seq::new(j as nat, |e: int| minimum_var(nx as int, c as int, e + 1) as usize),
            decreases 9 - j,
        {
            vars.push(nx + 9 * c + j);
            j += 1;
            proof {
                assert(vars@ =~= Seq::new(
                    j as nat,
                    |e: int| minimum_var(nx as int, c as int, e + 1) as usize,
                ));
            }
        }
        let item = Constraint {
            rule: Rule::MinimumUnique { compartment: c },
            vars,
            coeffs: ones_vec(9),
            lower: Some(1),
            upper: Some(1),
        };
        proof {
            assert(item@ == minimum_unique(nx as int, c as int));
            assert(views_of(out@.push(item)) =~= views_of(out@).push(item@));
            assert(views_of(out@).push(item@) =~= minimum_uniques(nx as int, (c + 1) as nat));
        }
        out.push(item);
        c += 1;
    }
    out
}

/// The constraints "the digits of a compartment are consecutive".
pub fn straight_constraints(grid: &Str8ts, ids: &Vec<usize>, nx: usize, comps: &Vec<Vec<u8>>) -> (r:
    Vec<Constraint>)
    requires
        is_var_table(grid@, ids@),
        nx == digit_vars(grid@).len(),
        nx <= 729,
        well_shaped(runs_of(comps@)),
    ensures
        views_of(r@) == straights(grid@, runs_of(comps@)),
{
    let ghost g = grid@;
    let ghost cs = runs_of(comps@);
    let count = comps.len();
    let mut out: Vec<Constraint> = Vec::new();
    let mut t: usize = 0;
    assert(views_of(out@) =~= kept_items(0, has_straight(cs), straight_at(g, cs)));
    while t < 81 * count
        invariant
            t <= 81 * count,
            count == comps.len(),
            g == grid@,
            cs == runs_of(comps@),
            well_shaped(cs),
            is_var_table(g, ids@),
            nx == digit_vars(g).len(),
            nx <= 729,
            views_of(out@) == kept_items(t as nat, has_straight(cs), straight_at(g, cs)),
        decreases 81 * count - t,
    {
        let c: usize = t / 81;
        let least: u8 = ((t / 9) % 9 + 1) as u8;
        let offset: usize = t % 9;
        let len = comps[c].len();
        assert(len == cs[c as int].len());
        if len <= (10 - least) as usize && offset < len {
            let digit: u8 = least + offset as u8;
            let mut vars: Vec<usize> = Vec::new();
            let mut e: usize = 0;
            while e < len
                invariant
                    e <= len,
                    c < comps.len(),
                    len == comps@[c as int].len(),
                    cs == runs_of(comps@),
                    well_shaped(cs),
                    is_var_table(g, ids@),
                    1 <= digit <= 9,
                    vars@ == Seq::new(
                        e as nat,
                        |d: int| digit_var(g, cs[c as int][d] as int, digit as int) as usize,
                    ),
                decreases len - e,
            {
                let index = comps[c][e];
                assert(index == cs[c as int][e as int]);
                vars.push(ids[index as usize * 9 + digit as usize - 1]);
                e += 1;
                proof {
                    assert(vars@ =~= Seq::new(
                        e as nat,
                        |d: int| digit_var(g, cs[c as int][d] as int, digit as int) as usize,
                    ));
                }
            }
            vars.push(nx + 9 * c + least as usize - 1);
            let mut coeffs = ones_vec(len);
            coeffs.push(-1);
            let item = Constraint {
                rule: Rule::Straight { compartment: c, least, digit },
                vars,
                coeffs,
                lower: Some(0),
                upper: None,
            };
            proof {
                assert(item@ == straight(g, cs, c as int, least as int, digit as int));
                assert(views_of(out@.push(item)) =~= views_of(out@).push(item@));
            }
            out.push(item);
        }
        t += 1;
    }
    out
}

/// Whether the cells at two places of one line are black cells with the
/// same digit.
pub open spec fn clues_clash(g: Seq<Cell>, axis: Axis, n1: int, n2: int) -> bool {
    &&& 0 <= n1 < n2 < 81
    &&& n1 / 9 == n2 / 9
    &&& g[place_cell(axis, n1)].is_black_clue()
    &&& g[place_cell(axis, n2)].is_black_clue()
    &&& g[place_cell(axis, n1)].value == g[place_cell(axis, n2)].value
}

/// Whether no two black cells of a line of the axis carry the same digit.
pub open spec fn axis_clues_distinct(g: Seq<Cell>, axis: Axis) -> bool {
    forall|n1: int, n2: int| !#[trigger] clues_clash(g, axis, n1, n2)
}

/// Whether no two black cells of a row or of a column carry the same digit.
/// A grid in which two do is no puzzle.
pub open spec fn clues_distinct(g: Seq<Cell>) -> bool {
    axis_clues_distinct(g, Axis::Row) && axis_clues_distinct(g, Axis::Column)
}

fn axis_clues_are_distinct(grid: &Str8ts, axis: Axis) -> (r: bool)
    ensures
        r == axis_clues_distinct(grid@, axis),
{
    let mut n1: u8 = 0;
    while n1 < 81
        invariant
            n1 <= 81,
            forall|a: int, b: int| a < n1 ==> !#[trigger] clues_clash(grid@, axis, a, b),
        decreases 81 - n1,
    {
        let first = grid.get_cell_by_index(cell_of(axis, n1 / 9, n1 % 9));
        let mut n2: u8 = n1 + 1;
        while n2 < 81
            invariant
                n1 < 81,
                n1 < n2 <= 81,
                first == grid@[place_cell(axis, n1 as int)],
                forall|a: int, b: int| a < n1 ==> !#[trigger] clues_clash(grid@, axis, a, b),
                forall|b: int| b < n2 ==> !#[trigger] clues_clash(grid@, axis, n1 as int, b),
            decreases 81 - n2,
        {
            let second = grid.get_cell_by_index(cell_of(axis, n2 / 9, n2 % 9));
            if n1 / 9 == n2 / 9 && first.carries_black_clue() && second.carries_black_clue()
                && first.value == second.value {
                assert(clues_clash(grid@, axis, n1 as int, n2 as int));
                return false;
            }
            n2 += 1;
        }
        n1 += 1;
    }
    true
}

impl Str8ts {
    /// Tests whether no two black cells of a row or of a column carry the
    /// same digit.
    pub fn clues_are_distinct(&self) -> (r: bool)
        ensures
            r == clues_distinct(self@),
    {
        axis_clues_are_distinct(self, Axis::Row) && axis_clues_are_distinct(self, Axis::Column)
    }

    /// Builds the model of the grid: its feasible points are the
    /// completions of the puzzle.
    pub fn encode(&self) -> (m: Model)
        requires
            clues_distinct(self@),
        ensures
            m@ == model_of(self@),
    {
        let ghost g = self@;
        let comps = find_compartments(self);
        proof {
            lemma_grid_compartments_shape(g);
        }
        let (mut vars, ids) = digit_variables(self);
        let nx = vars.len();
        let mut minimum = minimum_variables(&comps);
        vars.append(&mut minimum);
        let mut constraints = cell_total_constraints(self, &ids);
        let mut row_unique = line_unique_constraints(self, &ids, Axis::Row);
        let mut row_clue = line_clue_constraints(self, &ids, Axis::Row);
        let mut col_unique = line_unique_constraints(self, &ids, Axis::Column);
        let mut col_clue = line_clue_constraints(self, &ids, Axis::Column);
        let mut least = minimum_unique_constraints(nx, comps.len());
        let mut consecutive = straight_constraints(self, &ids, nx, &comps);
        let ghost parts = views_of(constraints@) + views_of(row_unique@) + views_of(row_clue@)
            + views_of(col_unique@) + views_of(col_clue@) + views_of(least@) + views_of(
            consecutive@,
        );
        constraints.append(&mut row_unique);
        constraints.append(&mut row_clue);
        constraints.append(&mut col_unique);
        constraints.append(&mut col_clue);
        constraints.append(&mut least);
        constraints.append(&mut consecutive);
        let m = Model { vars, constraints };
        proof {
            assert(m@.constraints =~= parts);
            assert(m@.vars =~= model_of(g).vars);
        }
        m
    }
}

} // verus!
