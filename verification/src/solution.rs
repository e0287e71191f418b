//! From a feasible point of a grid's model to the completed grid, and what
//! holds of every grid that is made that way.

use vstd::prelude::*;
use crate::compartments::{grid_compartments, place_cell, Axis};
use crate::encoder::{
    cell_total,
    cell_total_at,
    cell_totals,
    digit_var,
    digit_var_at,
    digit_variable,
    digit_variables,
    digit_vars,
    has_digit_var,
    has_line_clue,
    has_straight,
    is_white_cell,
    line_clue,
    line_clue_at,
    line_clues,
    line_unique,
    line_uniques,
    minimum_unique,
    minimum_uniques,
    minimum_var,
    minimum_variable,
    minimum_vars,
    model_of,
    ones,
    straight,
    straight_at,
    straights,
};
use crate::grid::{Cell, CellColor, CellValue, Str8ts};
use crate::model::{holds, satisfies, weighted_sum, within_bounds, ConstraintView, ModelView};
use crate::selection::lemma_kept_at;

verus! {

/// Whether the values say that the white cell `cell` holds `digit`.
pub open spec fn holds_digit(g: Seq<Cell>, values: Seq<bool>, cell: int, digit: int) -> bool {
    values[digit_var(g, cell, digit)]
}

/// The greatest digit up to `k` that the values give to the cell, or 0 if
/// they give it none.
pub open spec fn picked_digit(g: Seq<Cell>, values: Seq<bool>, cell: int, k: int) -> int
    decreases k,
{
    if k <= 0 {
        0
    } else if holds_digit(g, values, cell, k) {
        k
    } else {
        picked_digit(g, values, cell, k - 1)
    }
}

/// The cell of the completed grid: a white cell with the digit that the
/// values give it, a black cell as it was.
pub open spec fn solution_cell(g: Seq<Cell>, values: Seq<bool>, i: int) -> Cell {
    if g[i].is_white() {
        Cell { color: CellColor::White, value: CellValue::of_digit(picked_digit(g, values, i, 9)) }
    } else {
        g[i]
    }
}

/// The completed grid.
pub open spec fn solution_of(g: Seq<Cell>, values: Seq<bool>) -> Seq<Cell> {
    Seq::new(81, |i: int| solution_cell(g, values, i))
}

proof fn lemma_ones_drop(n: nat)
    requires
        n > 0,
    ensures
        ones(n).drop_last() == ones((n - 1) as nat),
        ones(n).last() == 1,
{
    assert(ones(n).drop_last() =~= ones((n - 1) as nat));
}

/// A sum with coefficients 1 counts variables: it lies between 0 and their
/// number.
pub proof fn lemma_count_bounds(vars: Seq<usize>, values: Seq<bool>)
    ensures
        0 <= weighted_sum(vars, ones(vars.len()), values) <= vars.len(),
    decreases vars.len(),
{
    if vars.len() > 0 {
        lemma_ones_drop(vars.len());
        lemma_count_bounds(vars.drop_last(), values);
    }
}

/// A sum with coefficients 1 is at least 1 where one of the variables is 1.
pub proof fn lemma_one_true(vars: Seq<usize>, values: Seq<bool>, p: int)
    requires
        0 <= p < vars.len(),
        values[vars[p] as int],
    ensures
        weighted_sum(vars, ones(vars.len()), values) >= 1,
    decreases vars.len(),
{
    lemma_ones_drop(vars.len());
    if p == vars.len() - 1 {
        lemma_count_bounds(vars.drop_last(), values);
    } else {
        lemma_count_bounds(seq![vars.last()], values);
        lemma_one_true(vars.drop_last(), values, p);
    }
}

/// A sum with coefficients 1 is at least 2 where two of the variables are 1.
pub proof fn lemma_two_true(vars: Seq<usize>, values: Seq<bool>, p: int, q: int)
    requires
        0 <= p < q < vars.len(),
        values[vars[p] as int],
        values[vars[q] as int],
    ensures
        weighted_sum(vars, ones(vars.len()), values) >= 2,
    decreases vars.len(),
{
    lemma_ones_drop(vars.len());
    if q == vars.len() - 1 {
        lemma_one_true(vars.drop_last(), values, p);
    } else {
        lemma_two_true(vars.drop_last(), values, p, q);
    }
}

/// Where a sum with coefficients 1 is at least 1, one of the variables is 1:
/// the proof hands out its place.
pub proof fn lemma_some_true(vars: Seq<usize>, values: Seq<bool>) -> (p: int)
    requires
        weighted_sum(vars, ones(vars.len()), values) >= 1,
    ensures
        0 <= p < vars.len(),
        values[vars[p] as int],
    decreases vars.len(),
{
    if vars.len() == 0 {
        0
    } else {
        lemma_ones_drop(vars.len());
        if values[vars.last() as int] {
            vars.len() - 1
        } else {
            lemma_some_true(vars.drop_last(), values)
        }
    }
}

/// A feasible point meets every constraint of every part of the list.
proof fn lemma_part_holds(
    m: ModelView,
    values: Seq<bool>,
    before: Seq<ConstraintView>,
    part: Seq<ConstraintView>,
    after: Seq<ConstraintView>,
    k: int,
)
    requires
        satisfies(m, values),
        m.constraints =~= before + part + after,
        0 <= k < part.len(),
    ensures
        holds(part[k], values),
{
    assert(m.constraints[before.len() + k] == part[k]);
}

/// A feasible point keeps the variable of a white cell and a digit within
/// its bounds.
pub proof fn lemma_digit_bounds(g: Seq<Cell>, values: Seq<bool>, cell: int, digit: int)
    requires
        satisfies(model_of(g), values),
        0 <= cell < 81,
        g[cell].is_white(),
        1 <= digit <= 9,
    ensures
        0 <= digit_var(g, cell, digit) < digit_vars(g).len(),
        digit_vars(g).len() <= values.len(),
        digit_vars(g).len() <= 729,
        within_bounds(digit_variable(g, cell, digit), holds_digit(g, values, cell, digit)),
{
    let t = cell * 9 + digit - 1;
    assert(has_digit_var(g)(t));
    lemma_kept_at(729, has_digit_var(g), digit_var_at(g), t);
    crate::selection::lemma_kept_len(0, 729, has_digit_var(g), digit_var_at(g));
    let id = digit_var(g, cell, digit);
    assert(model_of(g).vars[id] == digit_vars(g)[id]);
    assert(digit_var_at(g)(t) == digit_variable(g, cell, digit));
}

/// A feasible point keeps the variable of a compartment and a digit within
/// its bounds.
pub proof fn lemma_minimum_bounds(grid: Str8ts, values: Seq<bool>, c: int, digit: int)
    requires
        satisfies(model_of(grid@), values),
        0 <= c < grid_compartments(grid@).len(),
        1 <= digit <= 9,
    ensures
        0 <= minimum_var(digit_vars(grid@).len() as int, c, digit) < values.len(),
        values.len() <= 729 + 9 * 162,
        within_bounds(
            minimum_variable(grid_compartments(grid@), c, digit),
            values[minimum_var(digit_vars(grid@).len() as int, c, digit)],
        ),
{
    let g = grid@;
    let cs = grid_compartments(g);
    crate::compartments::lemma_grid_compartments_shape(g);
    crate::selection::lemma_kept_len(0, 729, has_digit_var(g), digit_var_at(g));
    let id = minimum_var(digit_vars(g).len() as int, c, digit);
    let t = 9 * c + digit - 1;
    assert(model_of(g).vars[id] == minimum_vars(cs)[t]);
    assert(minimum_vars(cs)[t] == minimum_variable(cs, c, digit));
}

/// The parts of the list of constraints of a model.
pub open spec fn parts(g: Seq<Cell>) -> Seq<Seq<ConstraintView>> {
    let cs = grid_compartments(g);
    seq![
        cell_totals(g),
        line_uniques(g, Axis::Row),
        line_clues(g, Axis::Row),
        line_uniques(g, Axis::Column),
        line_clues(g, Axis::Column),
        minimum_uniques(digit_vars(g).len() as int, cs.len()),
        straights(g, cs),
    ]
}

/// Every constraint of a model stands in one of the parts: the proof hands
/// out the part and the place in it.
pub proof fn lemma_constraint_part(g: Seq<Cell>, k: int) -> (r: (int, int))
    requires
        0 <= k < model_of(g).constraints.len(),
    ensures
        0 <= r.0 < 7,
        0 <= r.1 < parts(g)[r.0].len(),
        model_of(g).constraints[k] == parts(g)[r.0][r.1],
{
    let ps = parts(g);
    let l0 = ps[0].len() as int;
    let l1 = l0 + ps[1].len();
    let l2 = l1 + ps[2].len();
    let l3 = l2 + ps[3].len();
    let l4 = l3 + ps[4].len();
    let l5 = l4 + ps[5].len();
    assert(model_of(g).constraints =~= ps[0] + ps[1] + ps[2] + ps[3] + ps[4] + ps[5] + ps[6]);
    if k < l0 {
        (0, k)
    } else if k < l1 {
        (1, k - l0)
    } else if k < l2 {
        (2, k - l1)
    } else if k < l3 {
        (3, k - l2)
    } else if k < l4 {
        (4, k - l3)
    } else if k < l5 {
        (5, k - l4)
    } else {
        (6, k - l5)
    }
}

/// A feasible point meets constraint `k` of part `n`.
proof fn lemma_nth_part_holds(g: Seq<Cell>, values: Seq<bool>, n: int, k: int)
    requires
        satisfies(model_of(g), values),
        0 <= n < 7,
        0 <= k < parts(g)[n].len(),
    ensures
        holds(parts(g)[n][k], values),
{
    let ps = parts(g);
    let empty = Seq::<ConstraintView>::empty();
    if n == 0 {
        lemma_part_holds(
            model_of(g),
            values,
            empty,
            ps[0],
            ps[1] + ps[2] + ps[3] + ps[4] + ps[5] + ps[6],
            k,
        );
    } else if n == 1 {
        lemma_part_holds(model_of(g), values, ps[0], ps[1], ps[2] + ps[3] + ps[4] + ps[5] + ps[6], k);
    } else if n == 2 {
        lemma_part_holds(model_of(g), values, ps[0] + ps[1], ps[2], ps[3] + ps[4] + ps[5] + ps[6], k);
    } else if n == 3 {
        lemma_part_holds(model_of(g), values, ps[0] + ps[1] + ps[2], ps[3], ps[4] + ps[5] + ps[6], k);
    } else if n == 4 {
        lemma_part_holds(model_of(g), values, ps[0] + ps[1] + ps[2] + ps[3], ps[4], ps[5] + ps[6], k);
    } else if n == 5 {
        lemma_part_holds(model_of(g), values, ps[0] + ps[1] + ps[2] + ps[3] + ps[4], ps[5], ps[6], k);
    } else {
        lemma_part_holds(
            model_of(g),
            values,
            ps[0] + ps[1] + ps[2] + ps[3] + ps[4] + ps[5],
            ps[6],
            empty,
            k,
        );
    }
}

/// A feasible point gives a white cell exactly one digit.
pub proof fn lemma_cell_total_holds(g: Seq<Cell>, values: Seq<bool>, cell: int)
    requires
        satisfies(model_of(g), values),
        0 <= cell < 81,
        g[cell].is_white(),
    ensures
        holds(cell_total(g, cell), values),
{
    assert(is_white_cell(g)(cell));
    lemma_kept_at(81, is_white_cell(g), cell_total_at(g), cell);
    let k = crate::selection::kept_items(cell as nat, is_white_cell(g), cell_total_at(g)).len() as int;
    lemma_nth_part_holds(g, values, 0, k);
}

/// A feasible point gives a digit to at most one white cell of a line.
#[verifier::rlimit(50)]
pub proof fn lemma_line_unique_holds(
    g: Seq<Cell>,
    values: Seq<bool>,
    axis: Axis,
    line: int,
    digit: int,
)
    requires
        satisfies(model_of(g), values),
        0 <= line < 9,
        1 <= digit <= 9,
    ensures
        holds(line_unique(g, axis, line, digit), values),
{
    let k = line * 9 + digit - 1;
    assert(k / 9 == line && k % 9 + 1 == digit);
    match axis {
        Axis::Row => {
            assert(line_uniques(g, Axis::Row)[k] == line_unique(g, axis, line, digit));
            lemma_nth_part_holds(g, values, 1, k);
        },
        Axis::Column => {
            assert(line_uniques(g, Axis::Column)[k] == line_unique(g, axis, line, digit));
            lemma_nth_part_holds(g, values, 3, k);
        },
    }
}

/// The three numbers that make up the number of a triple.
proof fn lemma_triple(c: int, k: int, j: int)
    requires
        0 <= c,
        0 <= k < 9,
        0 <= j < 9,
    ensures
        (c * 81 + k * 9 + j) / 81 == c,
        ((c * 81 + k * 9 + j) / 9) % 9 == k,
        (c * 81 + k * 9 + j) % 9 == j,
{
}

/// A feasible point does not give a white cell the digit of a black cell of
/// its line.
#[verifier::rlimit(50)]
pub proof fn lemma_line_clue_holds(
    g: Seq<Cell>,
    values: Seq<bool>,
    axis: Axis,
    line: int,
    q: int,
    p: int,
)
    requires
        satisfies(model_of(g), values),
        0 <= line < 9,
        0 <= q < 9,
        0 <= p < 9,
        g[place_cell(axis, line * 9 + q)].is_black_clue(),
        g[place_cell(axis, line * 9 + p)].is_white(),
    ensures
        holds(line_clue(g, axis, line, q, p), values),
{
    let t = line * 81 + q * 9 + p;
    lemma_triple(line, q, p);
    assert(has_line_clue(g, axis)(t));
    lemma_kept_at(729, has_line_clue(g, axis), line_clue_at(g, axis), t);
    let k = crate::selection::kept_items(t as nat, has_line_clue(g, axis), line_clue_at(g, axis)).len() as int;
    assert(line_clue_at(g, axis)(t) == line_clue(g, axis, line, q, p));
    match axis {
        Axis::Row => {
            lemma_nth_part_holds(g, values, 2, k);
        },
        Axis::Column => {
            lemma_nth_part_holds(g, values, 4, k);
        },
    }
}

/// A feasible point gives a compartment exactly one least digit.
pub proof fn lemma_minimum_unique_holds(g: Seq<Cell>, values: Seq<bool>, c: int)
    requires
        satisfies(model_of(g), values),
        0 <= c < grid_compartments(g).len(),
    ensures
        holds(minimum_unique(digit_vars(g).len() as int, c), values),
{
    lemma_nth_part_holds(g, values, 5, c);
}

/// A feasible point meets the constraint of a compartment, a least digit
/// that the compartment can have, and a digit of the straight from there.
#[verifier::rlimit(50)]
pub proof fn lemma_straight_holds(g: Seq<Cell>, values: Seq<bool>, c: int, least: int, offset: int)
    requires
        satisfies(model_of(g), values),
        0 <= c < grid_compartments(g).len(),
        1 <= least <= 9,
        grid_compartments(g)[c].len() <= 9 - least + 1,
        0 <= offset < grid_compartments(g)[c].len(),
        offset < 9,
    ensures
        holds(straight(g, grid_compartments(g), c, least, least + offset), values),
{
    let cs = grid_compartments(g);
    let t = c * 81 + (least - 1) * 9 + offset;
    lemma_triple(c, least - 1, offset);
    assert(0 <= t < 81 * cs.len());
    assert(has_straight(cs)(t));
    lemma_kept_at(81 * cs.len(), has_straight(cs), straight_at(g, cs), t);
    let k = crate::selection::kept_items(t as nat, has_straight(cs), straight_at(g, cs)).len() as int;
    assert(straight_at(g, cs)(t) == straight(g, cs, c, least, least + offset));
    lemma_nth_part_holds(g, values, 6, k);
}

/// The digit that a feasible point gives to a white cell: it is one of 1 to
/// 9, the values say so, and they say it of no other digit.
#[verifier::rlimit(50)]
pub proof fn lemma_one_digit(g: Seq<Cell>, values: Seq<bool>, cell: int)
    requires
        satisfies(model_of(g), values),
        0 <= cell < 81,
        g[cell].is_white(),
    ensures
        1 <= picked_digit(g, values, cell, 9) <= 9,
        holds_digit(g, values, cell, picked_digit(g, values, cell, 9)),
        forall|k: int|
            1 <= k <= 9 && #[trigger] holds_digit(g, values, cell, k) ==> k == picked_digit(
                g,
                values,
                cell,
                9,
            ),
{
    lemma_cell_total_holds(g, values, cell);
    let vars = cell_total(g, cell).vars;
    let p = lemma_some_true(vars, values);
    assert forall|k: int| 1 <= k <= 9 implies holds_digit(g, values, cell, k) == values[vars[k
        - 1] as int] by {
        lemma_digit_bounds(g, values, cell, k);
    }
    assert(holds_digit(g, values, cell, p + 1));
    lemma_picked(g, values, cell, 9);
    assert forall|k: int| 1 <= k <= 9 && #[trigger] holds_digit(g, values, cell, k) implies k
        == picked_digit(g, values, cell, 9) by {
        let d = picked_digit(g, values, cell, 9);
        if k != d {
            if k < d {
                lemma_two_true(vars, values, k - 1, d - 1);
            } else {
                lemma_two_true(vars, values, d - 1, k - 1);
            }
        }
    }
}

/// The picked digit is 0 or a digit up to `k` that the values give.
proof fn lemma_picked(g: Seq<Cell>, values: Seq<bool>, cell: int, k: int)
    requires
        0 <= k <= 9,
    ensures
        0 <= picked_digit(g, values, cell, k) <= k,
        picked_digit(g, values, cell, k) > 0 ==> holds_digit(
            g,
            values,
            cell,
            picked_digit(g, values, cell, k),
        ),
        forall|d: int|
            1 <= d <= k && #[trigger] holds_digit(g, values, cell, d) ==> picked_digit(
                g,
                values,
                cell,
                k,
            ) >= d,
    decreases k,
{
    if k > 0 {
        lemma_picked(g, values, cell, k - 1);
    }
}

impl Str8ts {
    /// Completes the grid from a feasible point of its model: every white
    /// cell gets the digit that the values give it, every black cell stays
    /// as it is.
    pub fn extract(&self, values: &Vec<bool>) -> (r: Str8ts)
        requires
            satisfies(model_of(self@), values@),
        ensures
            r@ == solution_of(self@, values@),
            forall|i: int| 0 <= i < 81 && self@[i].is_white() ==> r@[i].value != CellValue::Empty,
    {
        let ghost g = self@;
        let (_, ids) = digit_variables(self);
        let mut solved = Str8ts::new();
        let mut i: u8 = 0;
        while i < 81
            invariant
                i <= 81,
                g == self@,
                satisfies(model_of(g), values@),
                crate::encoder::is_var_table(g, ids@),
                forall|j: int| 0 <= j < i ==> solved@[j] == solution_cell(g, values@, j),
                forall|j: int| i <= j < 81 ==> solved@[j] == Cell::blank(),
            decreases 81 - i,
        {
            let cell = self.get_cell_by_index(i);
            match cell.color {
                CellColor::White => {
                    let ghost before = solved@;
                    let mut k: u8 = 1;
                    proof {
                        assert(solved@ =~= before.update(
                            i as int,
                            (Cell {
                                color: CellColor::White,
                                value: CellValue::of_digit(picked_digit(g, values@, i as int, 0)),
                            }),
                        ));
                    }
                    while k <= 9
                        invariant
                            1 <= k <= 10,
                            i < 81,
                            before.len() == 81,
                            g == self@,
                            g[i as int].is_white(),
                            satisfies(model_of(g), values@),
                            crate::encoder::is_var_table(g, ids@),
                            solved@ == before.update(
                                i as int,
                                (Cell {
                                    color: CellColor::White,
                                    value: CellValue::of_digit(
                                        picked_digit(g, values@, i as int, k - 1),
                                    ),
                                }),
                            ),
                        decreases 10 - k,
                    {
                        proof {
                            lemma_digit_bounds(g, values@, i as int, k as int);
                        }
                        if values[ids[i as usize * 9 + k as usize - 1]] {
                            solved.set_cell_by_index(
                                i,
                                Cell::new(CellColor::White, CellValue::from(k)),
                            );
                        }
                        proof {
                            assert(solved@ =~= before.update(
                                i as int,
                                (Cell {
                                    color: CellColor::White,
                                    value: CellValue::of_digit(
                                        picked_digit(g, values@, i as int, k as int),
                                    ),
                                }),
                            ));
                        }
                        k += 1;
                    }
                },
                CellColor::Black => {
                    solved.set_cell_by_index(i, cell);
                },
            }
            i += 1;
        }
        proof {
            assert(solved@ =~= solution_of(g, values@));
            assert forall|j: int| 0 <= j < 81 && g[j].is_white() implies solved@[j].value
                != CellValue::Empty by {
                lemma_one_digit(g, values@, j);
            }
        }
        solved
    }

    /// The end of solving: `answer` is what the solver found for the model
    /// of this grid, a feasible point or nothing. With nothing there is no
    /// completed grid; with a feasible point there is one.
    pub fn solve(&self, answer: Option<&Vec<bool>>) -> (r: Option<Str8ts>)
        requires
            answer matches Some(values) ==> satisfies(model_of(self@), values@),
        ensures
            answer.is_none() ==> r.is_none(),
            answer matches Some(values) ==> r.is_some() && r.unwrap()@ == solution_of(
                self@,
                values@,
            ),
    {
        match answer {
            None => None,
            Some(values) => Some(self.extract(values)),
        }
    }
}

} // verus!
