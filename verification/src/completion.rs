//! What holds of every grid that is completed from a feasible point of its
//! model: the rules of the puzzle.

use vstd::prelude::*;
use vstd::set_lib::{lemma_int_range, lemma_len_subset, lemma_subset_equality, set_int_range};
use crate::compartments::{grid_compartments, lemma_compartment_cells, place_cell, Axis};
use crate::encoder::{
    digit_var,
    digit_vars,
    line_clue,
    line_unique,
    line_var,
    line_white,
    minimum_unique,
    minimum_var,
    model_of,
    ones,
    straight,
};
use crate::grid::{lemma_digit_round_trip, CellValue, Str8ts};
use crate::model::{satisfies, weighted_sum};
use crate::selection::{kept_items, lemma_kept_at};
use crate::solution::{
    holds_digit,
    lemma_digit_bounds,
    lemma_line_clue_holds,
    lemma_line_unique_holds,
    lemma_minimum_bounds,
    lemma_minimum_unique_holds,
    lemma_one_digit,
    lemma_one_true,
    lemma_some_true,
    lemma_straight_holds,
    lemma_two_true,
    picked_digit,
    solution_of,
};

verus! {

/// The digit of a cell of the completed grid is the digit that the values
/// give to the cell.
proof fn lemma_solution_digit(grid: Str8ts, values: Seq<bool>, cell: int)
    requires
        satisfies(model_of(grid@), values),
        0 <= cell < 81,
        grid@[cell].is_white(),
    ensures
        solution_of(grid@, values)[cell].value.digit() == picked_digit(grid@, values, cell, 9),
        1 <= picked_digit(grid@, values, cell, 9) <= 9,
        forall|k: int|
            1 <= k <= 9 ==> (#[trigger] holds_digit(grid@, values, cell, k) <==> k == picked_digit(
                grid@,
                values,
                cell,
                9,
            )),
{
    lemma_one_digit(grid@, values, cell);
}

/// A completed grid keeps every cell's colour, every black cell as it is,
/// and every digit that a white cell held.
pub proof fn lemma_clues_kept(grid: Str8ts, values: Seq<bool>)
    requires
        satisfies(model_of(grid@), values),
    ensures
        solution_of(grid@, values).len() == 81,
        forall|i: int|
            0 <= i < 81 ==> (#[trigger] solution_of(grid@, values)[i]).color == grid@[i].color,
        forall|i: int|
            0 <= i < 81 && !grid@[i].is_white() ==> #[trigger] solution_of(grid@, values)[i]
                == grid@[i],
        forall|i: int|
            0 <= i < 81 && grid@[i].value != CellValue::Empty ==> #[trigger] solution_of(
                grid@,
                values,
            )[i] == grid@[i],
{
    let g = grid@;
    assert forall|i: int| 0 <= i < 81 && g[i].value != CellValue::Empty implies #[trigger]
        solution_of(g, values)[i] == g[i] by {
        if g[i].is_white() {
            let d = g[i].value.digit();
            lemma_digit_round_trip(g[i].value);
            lemma_digit_bounds(g, values, i, d);
            assert(holds_digit(g, values, i, d));
            lemma_one_digit(g, values, i);
        }
    }
}

/// A completed grid has a digit from 1 to 9 in every white cell.
pub proof fn lemma_whites_filled(grid: Str8ts, values: Seq<bool>, i: int)
    requires
        satisfies(model_of(grid@), values),
        0 <= i < 81,
        grid@[i].is_white(),
    ensures
        solution_of(grid@, values)[i].value != CellValue::Empty,
{
    lemma_solution_digit(grid, values, i);
}

/// Two white cells of one line, the first before the second, do not hold
/// the same digit in a completed grid.
#[verifier::rlimit(50)]
proof fn lemma_whites_differ_ordered(grid: Str8ts, values: Seq<bool>, axis: Axis, n1: int, n2: int)
    requires
        satisfies(model_of(grid@), values),
        0 <= n1 < n2 < 81,
        n1 / 9 == n2 / 9,
        grid@[place_cell(axis, n1)].is_white(),
        grid@[place_cell(axis, n2)].is_white(),
    ensures
        solution_of(grid@, values)[place_cell(axis, n1)].value != solution_of(
            grid@,
            values,
        )[place_cell(axis, n2)].value,
{
    let g = grid@;
    let line = n1 / 9;
    let pa = n1 % 9;
    let pb = n2 % 9;
    let c1 = place_cell(axis, n1);
    let c2 = place_cell(axis, n2);
    crate::compartments::lemma_place_inverse(axis, n1);
    crate::compartments::lemma_place_inverse(axis, n2);
    lemma_solution_digit(grid, values, c1);
    lemma_solution_digit(grid, values, c2);
    let d = picked_digit(g, values, c1, 9);
    if picked_digit(g, values, c2, 9) == d {
        lemma_line_unique_holds(g, values, axis, line, d);
        let keep = line_white(g, axis, line);
        let item = line_var(g, axis, line, d);
        let vars = kept_items(9, keep, item);
        assert(line * 9 + pa == n1 && line * 9 + pb == n2);
        assert(keep(pa) && keep(pb));
        lemma_kept_at(9, keep, item, pa);
        lemma_kept_at(9, keep, item, pb);
        lemma_kept_at(pb as nat, keep, item, pa);
        let k1 = kept_items(pa as nat, keep, item).len() as int;
        let k2 = kept_items(pb as nat, keep, item).len() as int;
        lemma_digit_bounds(g, values, c1, d);
        lemma_digit_bounds(g, values, c2, d);
        assert(vars[k1] == digit_var(g, c1, d) as usize);
        assert(vars[k2] == digit_var(g, c2, d) as usize);
        assert(holds_digit(g, values, c1, d));
        assert(holds_digit(g, values, c2, d));
        lemma_two_true(vars, values, k1, k2);
        assert(line_unique(g, axis, line, d).vars == vars);
        assert(false);
    }
}

/// In a completed grid no two white cells of a row or a column hold the
/// same digit.
pub proof fn lemma_whites_differ(grid: Str8ts, values: Seq<bool>, axis: Axis, n1: int, n2: int)
    requires
        satisfies(model_of(grid@), values),
        0 <= n1 < 81,
        0 <= n2 < 81,
        n1 != n2,
        n1 / 9 == n2 / 9,
        grid@[place_cell(axis, n1)].is_white(),
        grid@[place_cell(axis, n2)].is_white(),
    ensures
        solution_of(grid@, values)[place_cell(axis, n1)].value != solution_of(
            grid@,
            values,
        )[place_cell(axis, n2)].value,
{
    if n1 < n2 {
        lemma_whites_differ_ordered(grid, values, axis, n1, n2);
    } else {
        lemma_whites_differ_ordered(grid, values, axis, n2, n1);
    }
}

/// In a completed grid no white cell holds the digit of a black cell of its
/// row or column.
#[verifier::rlimit(50)]
pub proof fn lemma_white_differs_from_clue(
    grid: Str8ts,
    values: Seq<bool>,
    axis: Axis,
    white: int,
    black: int,
)
    requires
        satisfies(model_of(grid@), values),
        0 <= white < 81,
        0 <= black < 81,
        white / 9 == black / 9,
        grid@[place_cell(axis, white)].is_white(),
        grid@[place_cell(axis, black)].is_black_clue(),
    ensures
        solution_of(grid@, values)[place_cell(axis, white)].value != solution_of(
            grid@,
            values,
        )[place_cell(axis, black)].value,
{
    let g = grid@;
    let line = white / 9;
    let p = white % 9;
    let q = black % 9;
    let cw = place_cell(axis, white);
    let cb = place_cell(axis, black);
    crate::compartments::lemma_place_inverse(axis, white);
    crate::compartments::lemma_place_inverse(axis, black);
    assert(line * 9 + p == white && line * 9 + q == black);
    lemma_solution_digit(grid, values, cw);
    lemma_digit_round_trip(g[cb].value);
    let d = g[cb].value.digit();
    if picked_digit(g, values, cw, 9) == d {
        lemma_line_clue_holds(g, values, axis, line, q, p);
        let vars = line_clue(g, axis, line, q, p).vars;
        lemma_digit_bounds(g, values, cw, d);
        assert(vars[0] == digit_var(g, cw, d) as usize);
        assert(holds_digit(g, values, cw, d));
        lemma_one_true(vars, values, 0);
        assert(false);
    }
}

/// The digits of the cells of a compartment of a completed grid.
pub open spec fn compartment_digits(grid: Str8ts, values: Seq<bool>, c: int) -> Seq<int> {
    Seq::new(
        grid_compartments(grid@)[c].len(),
        |e: int| solution_of(grid@, values)[grid_compartments(grid@)[c][e] as int].value.digit(),
    )
}

/// In a completed grid the digits of a compartment are consecutive: with
/// `least` the least of them, and as many cells as the compartment has,
/// every cell holds one of the digits from `least` on, and every one of
/// those digits stands in the compartment. The proof hands out `least`.
#[verifier::rlimit(50)]
pub proof fn lemma_compartment_is_straight(grid: Str8ts, values: Seq<bool>, c: int) -> (least: int)
    requires
        satisfies(model_of(grid@), values),
        0 <= c < grid_compartments(grid@).len(),
    ensures
        1 <= least,
        least + grid_compartments(grid@)[c].len() - 1 <= 9,
        compartment_digits(grid, values, c).to_set() == set_int_range(
            least,
            least + grid_compartments(grid@)[c].len(),
        ),
        forall|e: int|
            0 <= e < grid_compartments(grid@)[c].len() ==> least <= #[trigger] compartment_digits(
                grid,
                values,
                c,
            )[e] < least + grid_compartments(grid@)[c].len(),
        forall|v: int|
            least <= v < least + grid_compartments(grid@)[c].len() ==> #[trigger] compartment_digits(
                grid,
                values,
                c,
            ).contains(v),
{
    let g = grid@;
    let cs = grid_compartments(g);
    let run = cs[c];
    let len = run.len() as int;
    let nx = digit_vars(g).len() as int;
    lemma_compartment_cells(grid, c);
    // the least digit that the values give to the compartment
    lemma_minimum_unique_holds(g, values, c);
    let ys = minimum_unique(nx, c).vars;
    let p = lemma_some_true(ys, values);
    let least = p + 1;
    lemma_minimum_bounds(grid, values, c, least);
    assert(ys[p] == minimum_var(nx, c, least) as usize);
    assert(values[minimum_var(nx, c, least)]);
    assert(len <= 9 - least + 1);
    let digits = compartment_digits(grid, values, c);
    let range = set_int_range(least, least + len);
    // every digit of the straight stands in the compartment
    assert forall|v: int| least <= v < least + len implies #[trigger] digits.contains(v) by {
        lemma_straight_holds(g, values, c, least, v - least);
        let s = straight(g, cs, c, least, v);
        let xs = Seq::new(run.len(), |e: int| digit_var(g, run[e] as int, v) as usize);
        assert(s.vars.drop_last() =~= xs);
        assert(s.coeffs.drop_last() =~= ones(run.len()));
        assert(weighted_sum(s.vars, s.coeffs, values) == weighted_sum(xs, ones(run.len()), values)
            - 1);
        let e = lemma_some_true(xs, values);
        let cell = run[e] as int;
        lemma_digit_bounds(g, values, cell, v);
        assert(holds_digit(g, values, cell, v));
        lemma_solution_digit(grid, values, cell);
        assert(digits[e] == v);
    }
    // and there is no room for any other digit
    digits.lemma_cardinality_of_set();
    vstd::seq_lib::seq_to_set_is_finite(digits);
    lemma_int_range(least, least + len);
    assert(range.subset_of(digits.to_set())) by {
        assert forall|v: int| range.contains(v) implies digits.to_set().contains(v) by {
            assert(digits.contains(v));
        }
    }
    lemma_len_subset(range, digits.to_set());
    lemma_subset_equality(range, digits.to_set());
    assert(digits.to_set() == range);
    assert forall|e: int| 0 <= e < len implies least <= #[trigger] digits[e] < least + len by {
        assert(digits.contains(digits[e]));
        assert(digits.to_set().contains(digits[e]));
    }
    least
}

/// A grid in which two white cells of one row or column hold the same digit
/// has no completion: its model has no feasible point.
pub proof fn lemma_repeated_clue_is_infeasible(
    grid: Str8ts,
    values: Seq<bool>,
    axis: Axis,
    n1: int,
    n2: int,
)
    requires
        0 <= n1 < 81,
        0 <= n2 < 81,
        n1 != n2,
        n1 / 9 == n2 / 9,
        grid@[place_cell(axis, n1)].is_white(),
        grid@[place_cell(axis, n2)].is_white(),
        grid@[place_cell(axis, n1)].value != CellValue::Empty,
        grid@[place_cell(axis, n1)].value == grid@[place_cell(axis, n2)].value,
    ensures
        !satisfies(model_of(grid@), values),
{
    if satisfies(model_of(grid@), values) {
        crate::compartments::lemma_place_inverse(axis, n1);
        crate::compartments::lemma_place_inverse(axis, n2);
        lemma_clues_kept(grid, values);
        lemma_whites_differ(grid, values, axis, n1, n2);
        assert(solution_of(grid@, values)[place_cell(axis, n1)] == grid@[place_cell(axis, n1)]);
        assert(solution_of(grid@, values)[place_cell(axis, n2)] == grid@[place_cell(axis, n2)]);
    }
}

/// A grid whose white cells all hold a digit is completed to itself.
pub proof fn lemma_filled_grid_is_kept(grid: Str8ts, values: Seq<bool>)
    requires
        satisfies(model_of(grid@), values),
        forall|i: int| 0 <= i < 81 && grid@[i].is_white() ==> grid@[i].value != CellValue::Empty,
    ensures
        solution_of(grid@, values) == grid@,
{
    lemma_clues_kept(grid, values);
    assert(solution_of(grid@, values) =~= grid@);
}

} // verus!
