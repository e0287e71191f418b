//! Compartments: the maximal runs of white cells along a row or a column.
//!
//! A line of the grid is walked cell by cell. The walk along an axis visits
//! 81 places: place `n` is the cell number `n % 9` of line `n / 9`.

use vstd::prelude::*;
use crate::grid::{Cell, CellColor, Str8ts};
use crate::selection::{kept_items, lemma_kept_at, lemma_kept_len, lemma_kept_skip, lemma_kept_source};

verus! {

/// The direction of a line of the grid.
#[derive(Debug, Clone, Copy, PartialEq, Eq, Structural)]
pub enum Axis {
    Row,
    Column,
}

/// The flat index of the cell at place `n` of the walk along `axis`.
pub open spec fn place_cell(axis: Axis, n: int) -> int {
    match axis {
        Axis::Row => n,
        Axis::Column => (n % 9) * 9 + n / 9,
    }
}

/// The place of the cell with flat index `i` in the walk along `axis`.
pub open spec fn cell_place(axis: Axis, i: int) -> int {
    match axis {
        Axis::Row => i,
        Axis::Column => (i % 9) * 9 + i / 9,
    }
}

/// Whether the cell at place `n` is white.
pub open spec fn white_at(g: Seq<Cell>, axis: Axis, n: int) -> bool {
    0 <= n < 81 && g[place_cell(axis, n)].is_white()
}

/// Whether a compartment begins at place `n`: the cell is white, and it is
/// the first of its line or follows a black cell.
pub open spec fn starts_run(g: Seq<Cell>, axis: Axis, n: int) -> bool {
    white_at(g, axis, n) && (n % 9 == 0 || !white_at(g, axis, n - 1))
}

/// The number of white cells in a row from place `n` to the next black cell
/// or the end of the line.
pub open spec fn run_len(g: Seq<Cell>, axis: Axis, n: int) -> nat
    decreases 81 - n,
{
    if !white_at(g, axis, n) {
        0
    } else if n % 9 == 8 {
        1
    } else {
        1 + run_len(g, axis, n + 1)
    }
}

/// The flat indices of the white cells from place `n` to the next black cell
/// or the end of the line, in the order of the walk.
pub open spec fn run_from(g: Seq<Cell>, axis: Axis, n: int) -> Seq<u8> {
    Seq::new(run_len(g, axis, n), |j: int| place_cell(axis, n + j) as u8)
}

/// Whether a compartment begins at a place, as a function of the place.
pub open spec fn run_starts(g: Seq<Cell>, axis: Axis) -> spec_fn(int) -> bool {
    |n: int| starts_run(g, axis, n)
}

/// The run from a place, as a function of the place.
pub open spec fn runs(g: Seq<Cell>, axis: Axis) -> spec_fn(int) -> Seq<u8> {
    |n: int| run_from(g, axis, n)
}

/// The compartments that begin before place `n`, in the order of the walk.
pub open spec fn compartments_before(g: Seq<Cell>, axis: Axis, n: nat) -> Seq<Seq<u8>> {
    kept_items(n, run_starts(g, axis), runs(g, axis))
}

/// All compartments along one axis.
pub open spec fn axis_compartments(g: Seq<Cell>, axis: Axis) -> Seq<Seq<u8>> {
    compartments_before(g, axis, 81)
}

/// All compartments of a grid: those of the rows, then those of the columns.
pub open spec fn grid_compartments(g: Seq<Cell>) -> Seq<Seq<u8>> {
    axis_compartments(g, Axis::Row) + axis_compartments(g, Axis::Column)
}

/// What a list of compartments holds, as sequences.
pub open spec fn runs_of(v: Seq<Vec<u8>>) -> Seq<Seq<u8>> {
    Seq::new(v.len(), |k: int| v[k]@)
}

/// A stretch of `len` white cells from place `a` that ends at a black cell
/// or at the end of the line is the whole run from `a`.
proof fn lemma_run_len(g: Seq<Cell>, axis: Axis, a: int, len: int)
    requires
        0 <= a,
        len >= 1,
        a + len <= 81,
        a / 9 == (a + len - 1) / 9,
        forall|p: int| a <= p < a + len ==> white_at(g, axis, p),
        (a + len) % 9 == 0 || !white_at(g, axis, a + len),
    ensures
        run_len(g, axis, a) == len,
    decreases len,
{
    assert(white_at(g, axis, a));
    if len > 1 {
        assert(a % 9 != 8);
        lemma_run_len(g, axis, a + 1, len - 1);
    } else if a % 9 != 8 {
        assert(!white_at(g, axis, a + 1));
        assert(run_len(g, axis, a + 1) == 0);
    }
}

/// Where no compartment begins, the list does not grow.
proof fn lemma_no_start(g: Seq<Cell>, axis: Axis, m: nat, n: nat)
    requires
        m <= n,
        forall|p: int| m <= p < n ==> !starts_run(g, axis, p),
    ensures
        compartments_before(g, axis, n) == compartments_before(g, axis, m),
{
    assert forall|p: int| m <= p < n implies !#[trigger] run_starts(g, axis)(p) by {
        assert(!starts_run(g, axis, p));
    }
    lemma_kept_skip(m, n, run_starts(g, axis), runs(g, axis));
}

/// Whether `cur` holds the cells of the places from `a` on, all of them white.
spec fn partial_run(g: Seq<Cell>, axis: Axis, a: int, cur: Seq<u8>) -> bool {
    forall|j: int|
        0 <= j < cur.len() ==> #[trigger] cur[j] == place_cell(axis, a + j) as u8 && white_at(
            g,
            axis,
            a + j,
        )
}

/// One more white cell extends the stretch.
proof fn lemma_extend(g: Seq<Cell>, axis: Axis, a: int, cur: Seq<u8>, index: u8)
    requires
        partial_run(g, axis, a, cur),
        white_at(g, axis, a + cur.len()),
        index == place_cell(axis, a + cur.len()),
    ensures
        partial_run(g, axis, a, cur.push(index)),
{
    let next = cur.push(index);
    assert forall|j: int| 0 <= j < next.len() implies #[trigger] next[j] == place_cell(
        axis,
        a + j,
    ) as u8 && white_at(g, axis, a + j) by {
        if j < cur.len() {
            assert(next[j] == cur[j]);
        }
    }
}

/// The list after the run that begins at `a` and is followed by no other
/// beginning before `n`.
proof fn lemma_emit(g: Seq<Cell>, axis: Axis, a: int, cur: Seq<u8>, n: int)
    requires
        0 <= a,
        cur.len() >= 1,
        a + cur.len() <= n <= a + cur.len() + 1,
        n <= 81,
        a / 9 == (a + cur.len() - 1) / 9,
        starts_run(g, axis, a),
        partial_run(g, axis, a, cur),
        (a + cur.len()) % 9 == 0 || !white_at(g, axis, a + cur.len()),
        n == a + cur.len() + 1 ==> !white_at(g, axis, a + cur.len()),
    ensures
        cur == run_from(g, axis, a),
        compartments_before(g, axis, n as nat) == compartments_before(g, axis, a as nat).push(cur),
{
    let len = cur.len() as int;
    assert forall|p: int| a <= p < a + len implies white_at(g, axis, p) by {
        assert(cur[p - a] == place_cell(axis, a + (p - a)) as u8);
    }
    lemma_run_len(g, axis, a, len);
    assert(cur =~= run_from(g, axis, a));
    assert forall|p: int| a + 1 <= p < n implies !starts_run(g, axis, p) by {
        if p < a + len {
            assert(cur[p - 1 - a] == place_cell(axis, a + (p - 1 - a)) as u8);
            assert(white_at(g, axis, p - 1));
            assert(p / 9 == a / 9);
        }
    }
    lemma_no_start(g, axis, (a + 1) as nat, n as nat);
}

/// Cell and place of the `pos`-th cell of a line.
pub proof fn lemma_place(axis: Axis, line: int, pos: int)
    requires
        0 <= line < 9,
        0 <= pos < 9,
    ensures
        axis == Axis::Row ==> place_cell(axis, line * 9 + pos) == line * 9 + pos,
        axis == Axis::Column ==> place_cell(axis, line * 9 + pos) == pos * 9 + line,
        (line * 9 + pos) / 9 == line,
        (line * 9 + pos) % 9 == pos,
{
}

/// The compartments along one axis, in the order of the walk.
#[verifier::rlimit(40)]
pub fn find_compartments_along(str8ts: &Str8ts, axis: Axis) -> (r: Vec<Vec<u8>>)
    ensures
        runs_of(r@) == axis_compartments(str8ts@, axis),
{
    let ghost g = str8ts@;
    let mut out: Vec<Vec<u8>> = Vec::new();
    let mut line: u8 = 0;
    assert(runs_of(out@) =~= compartments_before(g, axis, 0));
    while line < 9
        invariant
            line <= 9,
            g == str8ts@,
            runs_of(out@) == compartments_before(g, axis, (line * 9) as nat),
        decreases 9 - line,
    {
        let mut cur: Vec<u8> = Vec::new();
        let mut pos: u8 = 0;
        let ghost mut a: int = line * 9;
        while pos < 9
            invariant
                line < 9,
                pos <= 9,
                g == str8ts@,
                cur.len() <= pos,
                a == line * 9 + pos - cur.len(),
                runs_of(out@) == compartments_before(g, axis, a as nat),
                partial_run(g, axis, a, cur@),
                cur.len() > 0 ==> starts_run(g, axis, a),
                cur.len() == 0 && pos > 0 ==> !white_at(g, axis, a - 1),
            decreases 9 - pos,
        {
            let ghost n = line * 9 + pos;
            proof {
                lemma_place(axis, line as int, pos as int);
            }
            let cell = match axis {
                Axis::Row => str8ts.get_cell(line, pos),
                Axis::Column => str8ts.get_cell(pos, line),
            };
            let index: u8 = match axis {
                Axis::Row => line * 9 + pos,
                Axis::Column => pos * 9 + line,
            };
            assert(index == place_cell(axis, n));
            assert(cell == g[place_cell(axis, n)]);
            match cell.color {
                CellColor::Black => {
                    assert(!white_at(g, axis, n));
                    if cur.len() > 0 {
                        proof {
                            assert((a + cur.len() - 1) / 9 == line && a / 9 == line);
                            lemma_emit(g, axis, a, cur@, n + 1);
                            assert(runs_of(out@.push(cur)) =~= runs_of(out@).push(cur@));
                        }
                        out.push(cur);
                        cur = Vec::new();
                    } else {
                        proof {
                            lemma_no_start(g, axis, n as nat, (n + 1) as nat);
                        }
                    }
                    proof {
                        a = n + 1;
                    }
                },
                CellColor::White => {
                    assert(white_at(g, axis, n));
                    proof {
                        lemma_extend(g, axis, a, cur@, index);
                    }
                    cur.push(index);
                },
            }
            pos += 1;
        }
        if cur.len() > 0 {
            proof {
                assert((a + cur.len() - 1) / 9 == line && a / 9 == line);
                lemma_emit(g, axis, a, cur@, line * 9 + 9);
                assert(runs_of(out@.push(cur)) =~= runs_of(out@).push(cur@));
            }
            out.push(cur);
        }
        line += 1;
    }
    out
}

/// The compartments of the rows: first those of the top row from left to
/// right, then those of the next row, and so on.
pub fn find_compartments_rows(str8ts: &Str8ts) -> (r: Vec<Vec<u8>>)
    ensures
        runs_of(r@) == axis_compartments(str8ts@, Axis::Row),
{
    find_compartments_along(str8ts, Axis::Row)
}

/// The compartments of the columns: first those of the left column from top
/// to bottom, then those of the next column, and so on.
pub fn find_compartments_cols(str8ts: &Str8ts) -> (r: Vec<Vec<u8>>)
    ensures
        runs_of(r@) == axis_compartments(str8ts@, Axis::Column),
{
    find_compartments_along(str8ts, Axis::Column)
}

/// All compartments of the grid: those of the rows, then those of the
/// columns.
pub fn find_compartments(str8ts: &Str8ts) -> (r: Vec<Vec<u8>>)
    ensures
        runs_of(r@) == grid_compartments(str8ts@),
{
    let mut compartments = find_compartments_rows(str8ts);
    let mut col_compartments = find_compartments_cols(str8ts);
    compartments.append(&mut col_compartments);
    proof {
        assert(runs_of(compartments@) =~= grid_compartments(str8ts@));
    }
    compartments
}

/// Whether every compartment of a list has one to nine cells, each with a
/// flat index below 81, and there are at most 162 compartments.
pub open spec fn well_shaped(cs: Seq<Seq<u8>>) -> bool {
    &&& cs.len() <= 162
    &&& forall|c: int| 0 <= c < cs.len() ==> 1 <= (#[trigger] cs[c]).len() <= 9
    &&& forall|c: int, e: int| 0 <= c < cs.len() && 0 <= e < cs[c].len() ==> #[trigger] cs[c][e] < 81
}

/// A run stays within its line.
pub proof fn lemma_run_within_line(g: Seq<Cell>, axis: Axis, n: int)
    requires
        0 <= n < 81,
    ensures
        run_len(g, axis, n) <= 9 - n % 9,
        white_at(g, axis, n) ==> run_len(g, axis, n) >= 1,
    decreases 81 - n,
{
    if white_at(g, axis, n) && n % 9 != 8 {
        lemma_run_within_line(g, axis, n + 1);
    }
}

/// The compartment number `k` along an axis is the run from a place where a
/// compartment begins; the proof hands out the place.
pub proof fn lemma_compartment_source(g: Seq<Cell>, axis: Axis, k: int) -> (n: int)
    requires
        0 <= k < axis_compartments(g, axis).len(),
    ensures
        0 <= n < 81,
        starts_run(g, axis, n),
        axis_compartments(g, axis)[k] == run_from(g, axis, n),
        compartments_before(g, axis, n as nat).len() == k,
        1 <= run_len(g, axis, n) <= 9 - n % 9,
{
    let n = lemma_kept_source(81, run_starts(g, axis), runs(g, axis), k);
    lemma_run_within_line(g, axis, n);
    n
}

/// The compartments along an axis are at most 81, each of one to nine cells
/// of the grid.
pub proof fn lemma_axis_compartments_shape(g: Seq<Cell>, axis: Axis)
    ensures
        axis_compartments(g, axis).len() <= 81,
        forall|c: int|
            0 <= c < axis_compartments(g, axis).len() ==> 1 <= (#[trigger] axis_compartments(
                g,
                axis,
            )[c]).len() <= 9,
        forall|c: int, e: int|
            0 <= c < axis_compartments(g, axis).len() && 0 <= e < axis_compartments(g, axis)[c].len()
                ==> #[trigger] axis_compartments(g, axis)[c][e] < 81,
{
    let cs = axis_compartments(g, axis);
    lemma_kept_len(0, 81, run_starts(g, axis), runs(g, axis));
    assert forall|c: int| 0 <= c < cs.len() implies 1 <= (#[trigger] cs[c]).len() <= 9 && (forall|
        e: int,
    |
        0 <= e < cs[c].len() ==> #[trigger] cs[c][e] < 81) by {
        let n = lemma_compartment_source(g, axis, c);
        assert forall|e: int| 0 <= e < cs[c].len() implies #[trigger] cs[c][e] < 81 by {
            lemma_place(axis, n / 9, n % 9 + e);
        }
    }
}

/// The compartments of a grid are well shaped.
pub proof fn lemma_grid_compartments_shape(g: Seq<Cell>)
    ensures
        well_shaped(grid_compartments(g)),
{
    lemma_axis_compartments_shape(g, Axis::Row);
    lemma_axis_compartments_shape(g, Axis::Column);
}

/// Places and cells correspond one to one.
pub proof fn lemma_place_inverse(axis: Axis, n: int)
    requires
        0 <= n < 81,
    ensures
        0 <= place_cell(axis, n) < 81,
        cell_place(axis, place_cell(axis, n)) == n,
        0 <= cell_place(axis, n) < 81,
        place_cell(axis, cell_place(axis, n)) == n,
{
}

/// Every cell of a run is white and lies in the line of the first.
pub proof fn lemma_run_white(g: Seq<Cell>, axis: Axis, n: int, e: int)
    requires
        0 <= e < run_len(g, axis, n),
    ensures
        white_at(g, axis, n + e),
        (n + e) / 9 == n / 9,
    decreases e,
{
    if e > 0 {
        lemma_run_white(g, axis, n + 1, e - 1);
    }
}

/// A run ends at the end of its line or before a black cell.
pub proof fn lemma_run_end(g: Seq<Cell>, axis: Axis, n: int)
    requires
        white_at(g, axis, n),
    ensures
        (n + run_len(g, axis, n) - 1) % 9 == 8 || !white_at(g, axis, n + run_len(g, axis, n)),
    decreases 81 - n,
{
    if n % 9 != 8 {
        if white_at(g, axis, n + 1) {
            lemma_run_end(g, axis, n + 1);
        } else {
            assert(run_len(g, axis, n + 1) == 0);
        }
    }
}

/// The place where the run through place `p` begins.
pub open spec fn run_start(g: Seq<Cell>, axis: Axis, p: int) -> int
    decreases p,
{
    if p <= 0 || starts_run(g, axis, p) || !white_at(g, axis, p) {
        p
    } else {
        run_start(g, axis, p - 1)
    }
}

/// The run through a white place begins in the same line, at or before the
/// place, and reaches it.
pub proof fn lemma_run_start(g: Seq<Cell>, axis: Axis, p: int)
    requires
        white_at(g, axis, p),
    ensures
        0 <= run_start(g, axis, p) <= p,
        run_start(g, axis, p) / 9 == p / 9,
        starts_run(g, axis, run_start(g, axis, p)),
        p - run_start(g, axis, p) < run_len(g, axis, run_start(g, axis, p)),
    decreases p,
{
    if !starts_run(g, axis, p) {
        lemma_run_start(g, axis, p - 1);
        lemma_run_grows(g, axis, run_start(g, axis, p), p - 1);
    }
}

/// A run that reaches the place before a white place of the same line
/// reaches that place too.
proof fn lemma_run_grows(g: Seq<Cell>, axis: Axis, s: int, p: int)
    requires
        0 <= s <= p,
        p - s < run_len(g, axis, s),
        white_at(g, axis, p + 1),
        (p + 1) / 9 == p / 9,
    ensures
        p + 1 - s < run_len(g, axis, s),
    decreases p - s,
{
    if s < p {
        lemma_run_grows(g, axis, s + 1, p);
    } else {
        assert(run_len(g, axis, s + 1) >= 1);
    }
}

/// Whether cell `i` is the cell number `e` of compartment number `c`.
pub open spec fn occurs_at(cs: Seq<Seq<u8>>, c: int, e: int, i: int) -> bool {
    0 <= c < cs.len() && 0 <= e < cs[c].len() && cs[c][e] as int == i
}

/// Two runs that share a cell are one run, and the cell has one place in it.
proof fn lemma_runs_disjoint(g: Seq<Cell>, axis: Axis, n1: int, e1: int, n2: int, e2: int)
    requires
        starts_run(g, axis, n1),
        starts_run(g, axis, n2),
        0 <= e1 < run_len(g, axis, n1),
        0 <= e2 < run_len(g, axis, n2),
        n1 + e1 == n2 + e2,
    ensures
        n1 == n2,
        e1 == e2,
{
    lemma_run_white(g, axis, n1, e1);
    lemma_run_white(g, axis, n2, e2);
    if n1 < n2 {
        lemma_run_white(g, axis, n1, n2 - 1 - n1);
    } else if n2 < n1 {
        lemma_run_white(g, axis, n2, n1 - 1 - n2);
    }
}

/// Along each axis every white cell lies in exactly one compartment, once,
/// and no black cell lies in any. So the compartments of a grid, those of
/// the rows and then those of the columns, hold every white cell twice and
/// no black cell.
pub proof fn lemma_compartments_cover(grid: Str8ts, axis: Axis)
    ensures
        forall|i: int|
            0 <= i < 81 && grid@[i].is_white() ==> exists|c: int, e: int| #[trigger]
                occurs_at(axis_compartments(grid@, axis), c, e, i),
        forall|c1: int, e1: int, c2: int, e2: int, i: int|
            #[trigger] occurs_at(axis_compartments(grid@, axis), c1, e1, i) && #[trigger] occurs_at(
                axis_compartments(grid@, axis),
                c2,
                e2,
                i,
            ) ==> c1 == c2 && e1 == e2,
        forall|c: int, e: int, i: int|
            #[trigger] occurs_at(axis_compartments(grid@, axis), c, e, i) ==> 0 <= i < 81
                && grid@[i].is_white(),
{
    let g = grid@;
    let cs = axis_compartments(g, axis);
    assert forall|i: int| 0 <= i < 81 && g[i].is_white() implies exists|c: int, e: int| #[trigger]
        occurs_at(cs, c, e, i) by {
        lemma_place_inverse(axis, i);
        let p = cell_place(axis, i);
        lemma_run_start(g, axis, p);
        let s = run_start(g, axis, p);
        assert(run_starts(g, axis)(s));
        lemma_kept_at(81, run_starts(g, axis), runs(g, axis), s);
        let c = compartments_before(g, axis, s as nat).len() as int;
        assert(cs[c] == run_from(g, axis, s));
        assert(occurs_at(cs, c, p - s, i));
    }
    assert forall|c: int, e: int, i: int| #[trigger] occurs_at(cs, c, e, i) implies 0 <= i < 81
        && g[i].is_white() by {
        let n = lemma_compartment_source(g, axis, c);
        lemma_run_white(g, axis, n, e);
        lemma_place_inverse(axis, n + e);
    }
    assert forall|c1: int, e1: int, c2: int, e2: int, i: int| #[trigger]
        occurs_at(cs, c1, e1, i) && #[trigger] occurs_at(cs, c2, e2, i) implies c1 == c2 && e1
        == e2 by {
        let n1 = lemma_compartment_source(g, axis, c1);
        let n2 = lemma_compartment_source(g, axis, c2);
        lemma_run_white(g, axis, n1, e1);
        lemma_run_white(g, axis, n2, e2);
        lemma_place_inverse(axis, n1 + e1);
        lemma_place_inverse(axis, n2 + e2);
        lemma_runs_disjoint(g, axis, n1, e1, n2, e2);
    }
}

/// A compartment holds the cells of consecutive places of one line, in the
/// order of the walk, and cannot be longer: it begins at the beginning of
/// the line or after a black cell, and ends at the end of the line or before
/// a black cell. So no two compartments of an axis touch.
pub proof fn lemma_compartments_maximal(grid: Str8ts, axis: Axis, c: int)
    requires
        0 <= c < axis_compartments(grid@, axis).len(),
    ensures
        ({
            let run = axis_compartments(grid@, axis)[c];
            let first = cell_place(axis, run[0] as int);
            let last = cell_place(axis, run.last() as int);
            &&& 1 <= run.len() <= 9
            &&& 0 <= first <= last < 81
            &&& last - first == run.len() - 1
            &&& first / 9 == last / 9
            &&& forall|e: int| 0 <= e < run.len() ==> cell_place(axis, #[trigger] run[e] as int) == first + e
            &&& first % 9 == 0 || !white_at(grid@, axis, first - 1)
            &&& last % 9 == 8 || !white_at(grid@, axis, last + 1)
        }),
{
    let g = grid@;
    let run = axis_compartments(g, axis)[c];
    let n = lemma_compartment_source(g, axis, c);
    lemma_run_end(g, axis, n);
    lemma_run_white(g, axis, n, run.len() - 1);
    assert forall|e: int| 0 <= e < run.len() implies cell_place(axis, #[trigger] run[e] as int) == n
        + e by {
        lemma_run_white(g, axis, n, e);
        lemma_place_inverse(axis, n + e);
    }
    assert(cell_place(axis, run[0] as int) == n + 0);
    assert(cell_place(axis, run[run.len() - 1] as int) == n + (run.len() - 1));
}

/// Every compartment of a grid has one to nine cells, all of them white
/// cells of the grid.
pub proof fn lemma_compartment_cells(grid: Str8ts, c: int)
    requires
        0 <= c < grid_compartments(grid@).len(),
    ensures
        grid_compartments(grid@).len() <= 162,
        1 <= grid_compartments(grid@)[c].len() <= 9,
        forall|e: int|
            0 <= e < grid_compartments(grid@)[c].len() ==> (#[trigger] grid_compartments(
                grid@,
            )[c][e]) < 81 && grid@[grid_compartments(grid@)[c][e] as int].is_white(),
{
    let g = grid@;
    let rows = axis_compartments(g, Axis::Row);
    let cols = axis_compartments(g, Axis::Column);
    lemma_grid_compartments_shape(g);
    let run = grid_compartments(g)[c];
    if c < rows.len() {
        lemma_compartments_cover(grid, Axis::Row);
        assert forall|e: int| 0 <= e < run.len() implies (#[trigger] run[e]) < 81
            && g[run[e] as int].is_white() by {
            assert(occurs_at(rows, c, e, run[e] as int));
        }
    } else {
        lemma_compartments_cover(grid, Axis::Column);
        assert forall|e: int| 0 <= e < run.len() implies (#[trigger] run[e]) < 81
            && g[run[e] as int].is_white() by {
            assert(occurs_at(cols, c - rows.len(), e, run[e] as int));
        }
    }
}

/// A grid without white cells has no compartment.
pub proof fn lemma_black_grid_has_no_compartment(grid: Str8ts)
    requires
        forall|i: int| 0 <= i < 81 ==> !grid@[i].is_white(),
    ensures
        grid_compartments(grid@).len() == 0,
{
    let g = grid@;
    assert forall|axis: Axis, p: int| 0 <= p < 81 implies !#[trigger] run_starts(g, axis)(p) by {
        lemma_place_inverse(axis, p);
    }
    lemma_kept_skip(0, 81, run_starts(g, Axis::Row), runs(g, Axis::Row));
    lemma_kept_skip(0, 81, run_starts(g, Axis::Column), runs(g, Axis::Column));
}

/// Among the compartments of a grid, those of the rows and then those of
/// the columns, a white cell stands exactly twice: once in a compartment of
/// the rows and once in a compartment of the columns. The proof hands out
/// the two compartments and the places of the cell in them.
pub proof fn lemma_white_cell_occurs_twice(grid: Str8ts, i: int) -> (r: (int, int, int, int))
    requires
        0 <= i < 81,
        grid@[i].is_white(),
    ensures
        0 <= r.0 < axis_compartments(grid@, Axis::Row).len() <= r.2 < grid_compartments(grid@).len(),
        occurs_at(grid_compartments(grid@), r.0, r.1, i),
        occurs_at(grid_compartments(grid@), r.2, r.3, i),
        forall|c: int, e: int| #[trigger]
            occurs_at(grid_compartments(grid@), c, e, i) ==> (c == r.0 && e == r.1) || (c == r.2
                && e == r.3),
{
    let g = grid@;
    let rows = axis_compartments(g, Axis::Row);
    let cols = axis_compartments(g, Axis::Column);
    let all = grid_compartments(g);
    lemma_compartments_cover(grid, Axis::Row);
    lemma_compartments_cover(grid, Axis::Column);
    let (c1, e1) = choose|c: int, e: int| #[trigger] occurs_at(rows, c, e, i);
    let (c2, e2) = choose|c: int, e: int| #[trigger] occurs_at(cols, c, e, i);
    assert(all[c1] == rows[c1]);
    assert(all[rows.len() + c2] == cols[c2]);
    assert forall|c: int, e: int| #[trigger] occurs_at(all, c, e, i) implies (c == c1 && e == e1)
        || (c == rows.len() + c2 && e == e2) by {
        if c < rows.len() {
            assert(all[c] == rows[c]);
            assert(occurs_at(rows, c, e, i));
        } else {
            assert(all[c] == cols[c - rows.len()]);
            assert(occurs_at(cols, c - rows.len(), e, i));
        }
    }
    (c1, e1, rows.len() + c2, e2)
}

/// No black cell stands in a compartment of a grid.
pub proof fn lemma_black_cell_occurs_nowhere(grid: Str8ts, i: int)
    requires
        !(0 <= i < 81 && grid@[i].is_white()),
    ensures
        forall|c: int, e: int| !#[trigger] occurs_at(grid_compartments(grid@), c, e, i),
{
    let g = grid@;
    let rows = axis_compartments(g, Axis::Row);
    let cols = axis_compartments(g, Axis::Column);
    let all = grid_compartments(g);
    lemma_compartments_cover(grid, Axis::Row);
    lemma_compartments_cover(grid, Axis::Column);
    assert forall|c: int, e: int| !#[trigger] occurs_at(all, c, e, i) by {
        if occurs_at(all, c, e, i) {
            if c < rows.len() {
                assert(all[c] == rows[c]);
                assert(occurs_at(rows, c, e, i));
            } else {
                assert(all[c] == cols[c - rows.len()]);
                assert(occurs_at(cols, c - rows.len(), e, i));
            }
        }
    }
}

} // verus!
