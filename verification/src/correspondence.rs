//! Feasible points and completions correspond: the grid that is made from a
//! feasible point of a grid's model obeys the rules of the puzzle, and every
//! grid that obeys them is made from a feasible point.

use vstd::prelude::*;
use crate::completion::{
    compartment_digits,
    lemma_clues_kept,
    lemma_filled_grid_is_kept,
    lemma_compartment_is_straight,
    lemma_white_differs_from_clue,
    lemma_whites_differ,
    lemma_whites_filled,
};
use crate::compartments::{
    grid_compartments,
    lemma_black_grid_has_no_compartment,
    lemma_compartment_cells,
    lemma_grid_compartments_shape,
    lemma_place,
    lemma_place_inverse,
    place_cell,
    Axis,
};
use crate::encoder::{
    cell_total,
    cell_total_at,
    clues_distinct,
    digit_var,
    digit_var_at,
    digit_variable,
    digit_vars,
    has_digit_var,
    has_line_clue,
    has_straight,
    is_white_cell,
    line_clue,
    line_clue_at,
    line_unique,
    line_var,
    line_white,
    minimum_unique,
    minimum_var,
    minimum_variable,
    minimum_vars,
    model_of,
    ones,
    straight,
    straight_at,
    var_place,
};
use crate::grid::{lemma_digit_round_trip, Cell, CellValue, Str8ts};
use crate::model::{holds, satisfies, weighted_sum, within_bounds};
use crate::selection::{kept_items, lemma_kept_at, lemma_kept_len, lemma_kept_source};
use crate::solution::{
    holds_digit,
    lemma_constraint_part,
    lemma_count_bounds,
    lemma_one_true,
    picked_digit,
    solution_of,
};

verus! {

/// Whether the cells at two places of one line are a white cell and another
/// cell that is white or black with a digit.
pub open spec fn line_pair(g: Seq<Cell>, axis: Axis, n1: int, n2: int) -> bool {
    &&& 0 <= n1 < 81
    &&& 0 <= n2 < 81
    &&& n1 != n2
    &&& n1 / 9 == n2 / 9
    &&& g[place_cell(axis, n1)].is_white()
    &&& (g[place_cell(axis, n2)].is_white() || g[place_cell(axis, n2)].is_black_clue())
}

/// Whether a cell of the run holds the digit.
pub open spec fn run_has_digit(s: Seq<Cell>, run: Seq<u8>, v: int) -> bool {
    exists|e: int| 0 <= e < run.len() && (#[trigger] s[run[e] as int]).value.digit() == v
}

/// Whether the digits of the cells of the run are those from `least` on, as
/// many as the run has cells.
pub open spec fn straight_from(s: Seq<Cell>, run: Seq<u8>, least: int) -> bool {
    &&& 1 <= least
    &&& least + run.len() - 1 <= 9
    &&& forall|e: int|
        0 <= e < run.len() ==> least <= (#[trigger] s[run[e] as int]).value.digit() < least
            + run.len()
    &&& forall|v: int| least <= v < least + run.len() ==> #[trigger] run_has_digit(s, run, v)
}

/// Whether the digits of the cells of the run are consecutive.
pub open spec fn is_straight(s: Seq<Cell>, run: Seq<u8>) -> bool {
    exists|least: int| #[trigger] straight_from(s, run, least)
}

/// Whether `s` completes the grid `g` by the rules: colours, black cells
/// and given digits are kept, every white cell holds a digit, no digit
/// stands twice among the white cells and the black cells of a row or
/// column, and the digits of every compartment are consecutive.
pub open spec fn is_completion(g: Seq<Cell>, s: Seq<Cell>) -> bool {
    &&& s.len() == 81
    &&& forall|i: int| 0 <= i < 81 ==> (#[trigger] s[i]).color == g[i].color
    &&& forall|i: int| 0 <= i < 81 && !g[i].is_white() ==> #[trigger] s[i] == g[i]
    &&& forall|i: int| 0 <= i < 81 && g[i].is_white() ==> (#[trigger] s[i]).value != CellValue::Empty
    &&& forall|i: int|
        0 <= i < 81 && g[i].value != CellValue::Empty ==> (#[trigger] s[i]).value == g[i].value
    &&& forall|axis: Axis, n1: int, n2: int| #[trigger]
        line_pair(g, axis, n1, n2) ==> s[place_cell(axis, n1)].value != s[place_cell(
            axis,
            n2,
        )].value
    &&& forall|c: int|
        0 <= c < grid_compartments(g).len() ==> is_straight(s, #[trigger] grid_compartments(g)[c])
}

/// The grid that is made from a feasible point of a grid's model completes
/// the grid by the rules.
#[verifier::rlimit(50)]
pub proof fn lemma_solution_is_completion(grid: Str8ts, values: Seq<bool>)
    requires
        satisfies(model_of(grid@), values),
    ensures
        is_completion(grid@, solution_of(grid@, values)),
{
    let g = grid@;
    let s = solution_of(g, values);
    lemma_clues_kept(grid, values);
    assert forall|i: int| 0 <= i < 81 && g[i].is_white() implies (#[trigger] s[i]).value
        != CellValue::Empty by {
        lemma_whites_filled(grid, values, i);
    }
    assert forall|axis: Axis, n1: int, n2: int| #[trigger] line_pair(g, axis, n1, n2) implies s[
        place_cell(axis, n1)
    ].value != s[place_cell(axis, n2)].value by {
        if g[place_cell(axis, n2)].is_white() {
            lemma_whites_differ(grid, values, axis, n1, n2);
        } else {
            lemma_white_differs_from_clue(grid, values, axis, n1, n2);
        }
    }
    assert forall|c: int| 0 <= c < grid_compartments(g).len() implies is_straight(
        s,
        #[trigger] grid_compartments(g)[c],
    ) by {
        let run = grid_compartments(g)[c];
        let least = lemma_compartment_is_straight(grid, values, c);
        let digits = compartment_digits(grid, values, c);
        assert forall|e: int| 0 <= e < run.len() implies least <= (#[trigger] s[run[e] as int]).value.digit()
            < least + run.len() by {
            assert(digits[e] == s[run[e] as int].value.digit());
        }
        assert forall|v: int| least <= v < least + run.len() implies #[trigger] run_has_digit(
            s,
            run,
            v,
        ) by {
            assert(digits.contains(v));
            let e = choose|e: int| 0 <= e < digits.len() && digits[e] == v;
            assert(s[run[e] as int].value.digit() == v);
        }
        assert(straight_from(s, run, least));
    }
}

/// The pair of a cell and a digit whose variable has the number `id`.
pub open spec fn var_source(g: Seq<Cell>, id: int) -> int {
    choose|t: int| 0 <= t < 729 && has_digit_var(g)(t) && var_place(g, t) == id
}

/// The least digit of a run whose digits are consecutive.
pub open spec fn least_of(s: Seq<Cell>, run: Seq<u8>) -> int {
    choose|least: int| straight_from(s, run, least)
}

/// The point that stands for a completed grid: the variable of a cell and a
/// digit is 1 where the cell holds the digit, that of a compartment and a
/// digit where the digit is the least of the compartment.
#[verifier::opaque]
pub open spec fn point_of(g: Seq<Cell>, s: Seq<Cell>) -> Seq<bool> {
    let nx = digit_vars(g).len() as int;
    let cs = grid_compartments(g);
    Seq::new(
        (nx + 9 * cs.len()) as nat,
        |id: int|
            if id < nx {
                s[var_source(g, id) / 9].value.digit() == var_source(g, id) % 9 + 1
            } else {
                (id - nx) % 9 + 1 == least_of(s, cs[(id - nx) / 9])
            },
    )
}

/// The point has one value for each variable of the model.
proof fn lemma_point_len(g: Seq<Cell>, s: Seq<Cell>)
    ensures
        point_of(g, s).len() == digit_vars(g).len() + 9 * grid_compartments(g).len(),
        point_of(g, s).len() == model_of(g).vars.len(),
{
    reveal(point_of);
}

/// A sum with coefficients 1 is 0 where none of the variables is 1.
proof fn lemma_none_true(vars: Seq<usize>, values: Seq<bool>)
    requires
        forall|p: int| 0 <= p < vars.len() ==> !values[#[trigger] vars[p] as int],
    ensures
        weighted_sum(vars, ones(vars.len()), values) == 0,
    decreases vars.len(),
{
    if vars.len() > 0 {
        assert(ones(vars.len()).drop_last() =~= ones((vars.len() - 1) as nat));
        assert(!values[vars[vars.len() - 1] as int]);
        assert forall|p: int| 0 <= p < vars.drop_last().len() implies !values[#[trigger] vars.drop_last()[p] as int] by {
            assert(vars.drop_last()[p] == vars[p]);
        }
        lemma_none_true(vars.drop_last(), values);
    }
}

/// Whether two variables of the list at different places are both 1.
spec fn both_true(vars: Seq<usize>, values: Seq<bool>, p: int, q: int) -> bool {
    0 <= p < q < vars.len() && values[vars[p] as int] && values[vars[q] as int]
}

/// A sum with coefficients 1 is at most 1 where no two of the variables
/// are 1.
proof fn lemma_at_most_one(vars: Seq<usize>, values: Seq<bool>)
    requires
        forall|p: int, q: int| !#[trigger] both_true(vars, values, p, q),
    ensures
        weighted_sum(vars, ones(vars.len()), values) <= 1,
    decreases vars.len(),
{
    if vars.len() > 0 {
        let rest = vars.drop_last();
        let last = vars.len() - 1;
        assert(ones(vars.len()).drop_last() =~= ones((vars.len() - 1) as nat));
        if values[vars[last] as int] {
            assert forall|p: int| 0 <= p < rest.len() implies !values[#[trigger] rest[p] as int] by {
                assert(rest[p] == vars[p]);
                assert(!both_true(vars, values, p, last));
            }
            lemma_none_true(rest, values);
        } else {
            assert forall|p: int, q: int| !#[trigger] both_true(rest, values, p, q) by {
                if 0 <= p < q < rest.len() {
                    assert(rest[p] == vars[p] && rest[q] == vars[q]);
                    assert(!both_true(vars, values, p, q));
                }
            }
            lemma_at_most_one(rest, values);
        }
    }
}

/// The variable of a white cell and a digit is 1 at the point of a
/// completed grid where the cell holds the digit in it, and only there.
proof fn lemma_point_digit(g: Seq<Cell>, s: Seq<Cell>, cell: int, digit: int)
    requires
        0 <= cell < 81,
        g[cell].is_white(),
        1 <= digit <= 9,
    ensures
        0 <= digit_var(g, cell, digit) < digit_vars(g).len() <= 729,
        digit_vars(g).len() <= point_of(g, s).len(),
        point_of(g, s)[digit_var(g, cell, digit)] == (s[cell].value.digit() == digit),
{
    reveal(point_of);
    let t = cell * 9 + digit - 1;
    let id = digit_var(g, cell, digit);
    assert(has_digit_var(g)(t));
    lemma_kept_at(729, has_digit_var(g), digit_var_at(g), t);
    lemma_kept_len(0, 729, has_digit_var(g), digit_var_at(g));
    let u = var_source(g, id);
    assert(0 <= u < 729 && has_digit_var(g)(u) && var_place(g, u) == id);
    if u < t {
        lemma_kept_at(t as nat, has_digit_var(g), digit_var_at(g), u);
    } else if t < u {
        lemma_kept_at(u as nat, has_digit_var(g), digit_var_at(g), t);
    }
    assert(u == t);
}

/// The variable of a compartment and a digit is 1 at the point of a
/// completed grid where the digit is the least of the compartment, and only
/// there.
proof fn lemma_point_minimum(g: Seq<Cell>, s: Seq<Cell>, c: int, digit: int)
    requires
        0 <= c < grid_compartments(g).len(),
        1 <= digit <= 9,
    ensures
        digit_vars(g).len() <= minimum_var(digit_vars(g).len() as int, c, digit) < point_of(
            g,
            s,
        ).len() <= 729 + 9 * 162,
        point_of(g, s)[minimum_var(digit_vars(g).len() as int, c, digit)] == (digit == least_of(
            s,
            grid_compartments(g)[c],
        )),
{
    reveal(point_of);
    lemma_kept_len(0, 729, has_digit_var(g), digit_var_at(g));
    lemma_grid_compartments_shape(g);
    let off = 9 * c + digit - 1;
    assert(off / 9 == c && off % 9 + 1 == digit);
}

/// The digits of the cells of a compartment of a completed grid begin at
/// the least digit of the compartment.
proof fn lemma_least(g: Seq<Cell>, s: Seq<Cell>, c: int)
    requires
        is_completion(g, s),
        0 <= c < grid_compartments(g).len(),
    ensures
        straight_from(s, grid_compartments(g)[c], least_of(s, grid_compartments(g)[c])),
{
    assert(is_straight(s, grid_compartments(g)[c]));
}

/// The point of a completed grid gives each white cell exactly one digit.
#[verifier::rlimit(50)]
proof fn lemma_point_total(grid: Str8ts, s: Seq<Cell>, cell: int)
    requires
        is_completion(grid@, s),
        0 <= cell < 81,
        grid@[cell].is_white(),
    ensures
        holds(cell_total(grid@, cell), point_of(grid@, s)),
{
    let g = grid@;
    let values = point_of(g, s);
    let vars = cell_total(g, cell).vars;
    let d = s[cell].value.digit();
    lemma_digit_round_trip(s[cell].value);
    assert forall|j: int| 0 <= j < 9 implies (#[trigger] vars[j]) < values.len() && values[vars[j] as int]
        == (d == j + 1) by {
        lemma_point_digit(g, s, cell, j + 1);
    }
    assert(values[vars[d - 1] as int]);
    lemma_one_true(vars, values, d - 1);
    assert forall|p: int, q: int| !#[trigger] both_true(vars, values, p, q) by {
        if 0 <= p < q < vars.len() {
            assert(values[vars[p] as int] == (d == p + 1));
            assert(values[vars[q] as int] == (d == q + 1));
        }
    }
    lemma_at_most_one(vars, values);
}

/// The variable of the `p`-th cell of a line and a digit is 1 at the point
/// of a completed grid where the cell holds the digit in it, and only there.
proof fn lemma_point_line_var(g: Seq<Cell>, s: Seq<Cell>, axis: Axis, line: int, p: int, digit: int)
    requires
        0 <= line < 9,
        0 <= p < 9,
        1 <= digit <= 9,
        g[place_cell(axis, line * 9 + p)].is_white(),
    ensures
        0 <= digit_var(g, place_cell(axis, line * 9 + p), digit) < point_of(g, s).len(),
        digit_var(g, place_cell(axis, line * 9 + p), digit) <= 729,
        point_of(g, s)[digit_var(g, place_cell(axis, line * 9 + p), digit)] == (s[place_cell(
            axis,
            line * 9 + p,
        )].value.digit() == digit),
{
    lemma_place(axis, line, p);
    lemma_point_digit(g, s, place_cell(axis, line * 9 + p), digit);
}

/// A white cell of a line of a completed grid and another cell of the line
/// that is white or black with a digit hold different digits.
proof fn lemma_line_cells_differ(g: Seq<Cell>, s: Seq<Cell>, axis: Axis, line: int, pa: int, pb: int)
    requires
        is_completion(g, s),
        0 <= line < 9,
        0 <= pa < 9,
        0 <= pb < 9,
        pa != pb,
        g[place_cell(axis, line * 9 + pa)].is_white(),
        g[place_cell(axis, line * 9 + pb)].is_white() || g[place_cell(
            axis,
            line * 9 + pb,
        )].is_black_clue(),
    ensures
        s[place_cell(axis, line * 9 + pa)].value.digit() != s[place_cell(
            axis,
            line * 9 + pb,
        )].value.digit(),
        !g[place_cell(axis, line * 9 + pb)].is_white() ==> s[place_cell(axis, line * 9 + pb)]
            == g[place_cell(axis, line * 9 + pb)],
{
    lemma_place(axis, line, pa);
    lemma_place(axis, line, pb);
    let n1 = line * 9 + pa;
    let n2 = line * 9 + pb;
    assert(line_pair(g, axis, n1, n2));
    lemma_digit_round_trip(s[place_cell(axis, n1)].value);
    lemma_digit_round_trip(s[place_cell(axis, n2)].value);
}

/// The point of a completed grid gives a digit to at most one white cell of
/// a line.
proof fn lemma_point_unique(grid: Str8ts, s: Seq<Cell>, axis: Axis, line: int, digit: int)
    requires
        is_completion(grid@, s),
        0 <= line < 9,
        1 <= digit <= 9,
    ensures
        holds(line_unique(grid@, axis, line, digit), point_of(grid@, s)),
{
    let g = grid@;
    let values = point_of(g, s);
    let keep = line_white(g, axis, line);
    let item = line_var(g, axis, line, digit);
    let vars = kept_items(9, keep, item);
    assert(line_unique(g, axis, line, digit).vars == vars);
    assert forall|j: int| 0 <= j < vars.len() implies (#[trigger] vars[j]) < values.len() by {
        let p = lemma_kept_source(9, keep, item, j);
        lemma_point_line_var(g, s, axis, line, p, digit);
    }
    assert forall|j1: int, j2: int| !#[trigger] both_true(vars, values, j1, j2) by {
        if 0 <= j1 < j2 < vars.len() {
            let pa = lemma_kept_source(9, keep, item, j1);
            let pb = lemma_kept_source(9, keep, item, j2);
            lemma_point_line_var(g, s, axis, line, pa, digit);
            lemma_point_line_var(g, s, axis, line, pb, digit);
            lemma_line_cells_differ(g, s, axis, line, pa, pb);
        }
    }
    lemma_at_most_one(vars, values);
}

/// The point of a completed grid does not give a white cell the digit of a
/// black cell of its line.
proof fn lemma_point_clue(grid: Str8ts, s: Seq<Cell>, axis: Axis, line: int, q: int, p: int)
    requires
        is_completion(grid@, s),
        0 <= line < 9,
        0 <= q < 9,
        0 <= p < 9,
        grid@[place_cell(axis, line * 9 + q)].is_black_clue(),
        grid@[place_cell(axis, line * 9 + p)].is_white(),
    ensures
        holds(line_clue(grid@, axis, line, q, p), point_of(grid@, s)),
{
    let g = grid@;
    let values = point_of(g, s);
    let vars = line_clue(g, axis, line, q, p).vars;
    let d = g[place_cell(axis, line * 9 + q)].value.digit();
    lemma_digit_round_trip(g[place_cell(axis, line * 9 + q)].value);
    lemma_point_line_var(g, s, axis, line, p, d);
    lemma_line_cells_differ(g, s, axis, line, p, q);
    assert(vars[0] == digit_var(g, place_cell(axis, line * 9 + p), d) as usize);
    assert forall|j: int| 0 <= j < vars.len() implies !values[#[trigger] vars[j] as int] by {
        assert(j == 0);
    }
    lemma_none_true(vars, values);
}

/// The point of a completed grid gives a compartment exactly one least
/// digit.
#[verifier::rlimit(50)]
proof fn lemma_point_minimum_unique(grid: Str8ts, s: Seq<Cell>, c: int)
    requires
        is_completion(grid@, s),
        0 <= c < grid_compartments(grid@).len(),
    ensures
        holds(minimum_unique(digit_vars(grid@).len() as int, c), point_of(grid@, s)),
{
    let g = grid@;
    let values = point_of(g, s);
    let nx = digit_vars(g).len() as int;
    let vars = minimum_unique(nx, c).vars;
    let least = least_of(s, grid_compartments(g)[c]);
    lemma_least(g, s, c);
    lemma_compartment_cells(grid, c);
    assert forall|j: int| 0 <= j < 9 implies (#[trigger] vars[j]) < values.len() && values[vars[j] as int]
        == (least == j + 1) by {
        lemma_point_minimum(g, s, c, j + 1);
    }
    assert(values[vars[least - 1] as int]);
    lemma_one_true(vars, values, least - 1);
    assert forall|p: int, q: int| !#[trigger] both_true(vars, values, p, q) by {
        if 0 <= p < q < vars.len() {
            assert(values[vars[p] as int] == (least == p + 1));
            assert(values[vars[q] as int] == (least == q + 1));
        }
    }
    lemma_at_most_one(vars, values);
}

/// The point of a completed grid meets the constraint of a compartment, a
/// least digit that the compartment can have, and a digit of the straight
/// from there.
#[verifier::rlimit(50)]
proof fn lemma_point_straight(grid: Str8ts, s: Seq<Cell>, c: int, least: int, offset: int)
    requires
        is_completion(grid@, s),
        0 <= c < grid_compartments(grid@).len(),
        1 <= least <= 9,
        grid_compartments(grid@)[c].len() <= 9 - least + 1,
        0 <= offset < grid_compartments(grid@)[c].len(),
    ensures
        holds(
            straight(grid@, grid_compartments(grid@), c, least, least + offset),
            point_of(grid@, s),
        ),
{
    let g = grid@;
    let values = point_of(g, s);
    let cs = grid_compartments(g);
    let run = cs[c];
    let v = least + offset;
    let nx = digit_vars(g).len() as int;
    let item = straight(g, cs, c, least, v);
    let xs = Seq::new(run.len(), |e: int| digit_var(g, run[e] as int, v) as usize);
    lemma_compartment_cells(grid, c);
    lemma_least(g, s, c);
    lemma_point_minimum(g, s, c, least);
    assert(item.vars.drop_last() =~= xs);
    assert(item.coeffs.drop_last() =~= ones(run.len()));
    assert forall|e: int| 0 <= e < run.len() implies (#[trigger] xs[e]) < values.len() && values[xs[e] as int]
        == (s[run[e] as int].value.digit() == v) by {
        lemma_point_digit(g, s, run[e] as int, v);
    }
    assert forall|p: int| 0 <= p < item.vars.len() implies (#[trigger] item.vars[p]) < values.len() by {
        if p < run.len() {
            assert(item.vars[p] == xs[p]);
        }
    }
    lemma_count_bounds(xs, values);
    if values[minimum_var(nx, c, least)] {
        assert(run_has_digit(s, run, v));
        let e = choose|e: int| 0 <= e < run.len() && (#[trigger] s[run[e] as int]).value.digit() == v;
        assert(values[xs[e] as int]);
        lemma_one_true(xs, values, e);
    }
}

/// The point of a completed grid keeps every variable within its bounds.
#[verifier::rlimit(50)]
proof fn lemma_point_bounds(grid: Str8ts, s: Seq<Cell>, id: int)
    requires
        is_completion(grid@, s),
        0 <= id < model_of(grid@).vars.len(),
    ensures
        point_of(grid@, s).len() == model_of(grid@).vars.len(),
        within_bounds(model_of(grid@).vars[id], point_of(grid@, s)[id]),
{
    let g = grid@;
    let cs = grid_compartments(g);
    let nx = digit_vars(g).len() as int;
    lemma_point_len(g, s);
    if id < nx {
        let t = lemma_kept_source(729, has_digit_var(g), digit_var_at(g), id);
        let cell = t / 9;
        let digit = t % 9 + 1;
        assert(digit_var(g, cell, digit) == id);
        assert(model_of(g).vars[id] == digit_variable(g, cell, digit));
        lemma_point_digit(g, s, cell, digit);
        lemma_digit_round_trip(g[cell].value);
        lemma_digit_round_trip(s[cell].value);
    } else {
        let off = id - nx;
        let c = off / 9;
        let digit = off % 9 + 1;
        assert(model_of(g).vars[id] == minimum_vars(cs)[off]);
        assert(minimum_vars(cs)[off] == minimum_variable(cs, c, digit));
        lemma_point_minimum(g, s, c, digit);
        lemma_least(g, s, c);
    }
}

/// Every grid that completes a grid by the rules is made from a feasible
/// point of the grid's model: its own point.
#[verifier::rlimit(50)]
pub proof fn lemma_completion_has_point(grid: Str8ts, s: Seq<Cell>)
    requires
        is_completion(grid@, s),
    ensures
        satisfies(model_of(grid@), point_of(grid@, s)),
        solution_of(grid@, point_of(grid@, s)) == s,
{
    let g = grid@;
    let values = point_of(g, s);
    let m = model_of(g);
    let cs = grid_compartments(g);
    lemma_point_len(g, s);
    assert forall|i: int| 0 <= i < m.vars.len() implies within_bounds(
        #[trigger] m.vars[i],
        values[i],
    ) by {
        lemma_point_bounds(grid, s, i);
    }
    assert forall|k: int| 0 <= k < m.constraints.len() implies holds(
        #[trigger] m.constraints[k],
        values,
    ) by {
        let (n, j) = lemma_constraint_part(g, k);
        if n == 0 {
            let t = lemma_kept_source(81, is_white_cell(g), cell_total_at(g), j);
            lemma_point_total(grid, s, t);
        } else if n == 1 {
            lemma_point_unique(grid, s, Axis::Row, j / 9, j % 9 + 1);
        } else if n == 2 {
            let t = lemma_kept_source(
                729,
                has_line_clue(g, Axis::Row),
                line_clue_at(g, Axis::Row),
                j,
            );
            lemma_point_clue(grid, s, Axis::Row, t / 81, (t / 9) % 9, t % 9);
        } else if n == 3 {
            lemma_point_unique(grid, s, Axis::Column, j / 9, j % 9 + 1);
        } else if n == 4 {
            let t = lemma_kept_source(
                729,
                has_line_clue(g, Axis::Column),
                line_clue_at(g, Axis::Column),
                j,
            );
            lemma_point_clue(grid, s, Axis::Column, t / 81, (t / 9) % 9, t % 9);
        } else if n == 5 {
            lemma_point_minimum_unique(grid, s, j);
        } else {
            let t = lemma_kept_source(81 * cs.len(), has_straight(cs), straight_at(g, cs), j);
            lemma_point_straight(grid, s, t / 81, (t / 9) % 9 + 1, t % 9);
        }
    }
    lemma_point_len(g, s);
    assert forall|i: int| 0 <= i < 81 implies solution_of(g, values)[i] == s[i] by {
        if g[i].is_white() {
            lemma_digit_round_trip(s[i].value);
            lemma_point_picked(g, s, i, 9);
        }
    }
    assert(solution_of(g, values) =~= s);
}

/// The digit that the point of a completed grid gives to a white cell is
/// the digit that the cell holds.
proof fn lemma_point_picked(g: Seq<Cell>, s: Seq<Cell>, cell: int, k: int)
    requires
        0 <= cell < 81,
        g[cell].is_white(),
        0 <= k <= 9,
        1 <= s[cell].value.digit() <= 9,
    ensures
        picked_digit(g, point_of(g, s), cell, k) == if s[cell].value.digit() <= k {
            s[cell].value.digit()
        } else {
            0
        },
    decreases k,
{
    if k > 0 {
        lemma_point_digit(g, s, cell, k);
        lemma_point_picked(g, s, cell, k - 1);
        assert(holds_digit(g, point_of(g, s), cell, k) == (s[cell].value.digit() == k));
    }
}

/// A grid without white cells is solved as it is: it completes itself, so
/// its model has a feasible point, and the grid made from that point is the
/// grid itself.
pub proof fn lemma_black_grid_is_solved(grid: Str8ts)
    requires
        forall|i: int| 0 <= i < 81 ==> !grid@[i].is_white(),
    ensures
        is_completion(grid@, grid@),
        satisfies(model_of(grid@), point_of(grid@, grid@)),
        solution_of(grid@, point_of(grid@, grid@)) == grid@,
{
    let g = grid@;
    lemma_black_grid_has_no_compartment(grid);
    assert forall|axis: Axis, n1: int, n2: int| #[trigger] line_pair(g, axis, n1, n2) implies g[
        place_cell(axis, n1)
    ].value != g[place_cell(axis, n2)].value by {
        lemma_place_inverse(axis, n1);
    }
    lemma_completion_has_point(grid, g);
}

/// Solving a solved grid gives the grid again: a grid that completes itself
/// has a feasible point, and every feasible point of its model makes the
/// grid itself.
pub proof fn lemma_solved_grid_is_solved_to_itself(grid: Str8ts, values: Seq<bool>)
    requires
        is_completion(grid@, grid@),
    ensures
        satisfies(model_of(grid@), point_of(grid@, grid@)),
        satisfies(model_of(grid@), values) ==> solution_of(grid@, values) == grid@,
{
    lemma_completion_has_point(grid, grid@);
    if satisfies(model_of(grid@), values) {
        lemma_filled_grid_is_kept(grid, values);
    }
}

/// Why a grid was not completed.
#[derive(Debug, Clone, Copy, PartialEq, Eq, Structural)]
pub enum Refusal {
    /// Two black cells of a row or of a column carry the same digit: the
    /// grid is no puzzle.
    ClashingClues,
    /// The values are no feasible point of the grid's model.
    NotFeasible,
}

impl Str8ts {
    /// Completes the grid from what a solver found for its model, and
    /// tests first what `encode` and `solve` ask of their callers. Without
    /// an answer there is no completed grid; with a feasible point there is
    /// one, and it obeys the rules of the puzzle.
    pub fn complete(&self, answer: Option<&Vec<bool>>) -> (r: Result<Option<Str8ts>, Refusal>)
        ensures
            match r {
                Err(Refusal::ClashingClues) => !clues_distinct(self@),
                Err(Refusal::NotFeasible) => clues_distinct(self@) && answer.is_some() && !satisfies(
                    model_of(self@),
                    answer.unwrap()@,
                ),
                Ok(None) => clues_distinct(self@) && answer.is_none(),
                Ok(Some(s)) => clues_distinct(self@) && answer.is_some() && satisfies(
                    model_of(self@),
                    answer.unwrap()@,
                ) && s@ == solution_of(self@, answer.unwrap()@) && is_completion(self@, s@),
            },
    {
        if !self.clues_are_distinct() {
            return Err(Refusal::ClashingClues);
        }
        match answer {
            None => Ok(None),
            Some(values) => {
                let model = self.encode();
                if model.is_satisfied_by(values) {
                    proof {
                        lemma_solution_is_completion(*self, values@);
                    }
                    Ok(self.solve(answer))
                } else {
                    Err(Refusal::NotFeasible)
                }
            },
        }
    }
}

} // verus!
