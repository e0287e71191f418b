//! A binary linear model: variables with bounds, and constraints that bound
//! a weighted sum of variables from below, from above or both.

use vstd::prelude::*;
use crate::compartments::Axis;

verus! {

/// What a variable of the puzzle's model stands for.
#[derive(Debug, Clone, Copy, PartialEq, Eq, Structural)]
pub enum VarKind {
    /// The white cell with flat index `cell` holds `digit`.
    Digit { cell: u8, digit: u8 },
    /// The least digit of the compartment with that number is `digit`.
    Minimum { compartment: usize, digit: u8 },
}

/// A binary variable: it takes 0 or 1, within its bounds.
#[derive(Debug, Clone, Copy, PartialEq, Eq, Structural)]
pub struct Variable {
    pub kind: VarKind,
    pub lower: u8,
    pub upper: u8,
}

/// The rule of the puzzle that a constraint belongs to.
#[derive(Debug, Clone, Copy, PartialEq, Eq, Structural)]
pub enum Rule {
    /// A white cell holds exactly one digit.
    CellTotal { cell: u8 },
    /// A digit stands at most once among the white cells of a line.
    LineUnique { axis: Axis, line: u8, digit: u8 },
    /// A white cell does not hold the digit of a black cell of its line.
    LineClue { axis: Axis, line: u8, digit: u8 },
    /// A compartment has exactly one least digit.
    MinimumUnique { compartment: usize },
    /// A compartment whose least digit is `least` holds `digit`.
    Straight { compartment: usize, least: u8, digit: u8 },
}

/// A linear constraint: the sum of `coeffs[p]` times the variable number
/// `vars[p]` lies between `lower` and `upper`; `None` is no bound.
#[derive(Debug, Clone, PartialEq, Eq)]
pub struct Constraint {
    pub rule: Rule,
    pub vars: Vec<usize>,
    pub coeffs: Vec<i8>,
    pub lower: Option<i8>,
    pub upper: Option<i8>,
}

/// A constraint as a mathematical value.
pub struct ConstraintView {
    pub rule: Rule,
    pub vars: Seq<usize>,
    pub coeffs: Seq<i8>,
    pub lower: Option<i8>,
    pub upper: Option<i8>,
}

impl View for Constraint {
    type V = ConstraintView;

    open spec fn view(&self) -> ConstraintView {
        ConstraintView {
            rule: self.rule,
            vars: self.vars@,
            coeffs: self.coeffs@,
            lower: self.lower,
            upper: self.upper,
        }
    }
}

/// The variables and constraints of one puzzle.
#[derive(Debug, Clone, PartialEq, Eq)]
pub struct Model {
    pub vars: Vec<Variable>,
    pub constraints: Vec<Constraint>,
}

/// A model as a mathematical value.
pub struct ModelView {
    pub vars: Seq<Variable>,
    pub constraints: Seq<ConstraintView>,
}

impl View for Model {
    type V = ModelView;

    open spec fn view(&self) -> ModelView {
        ModelView {
            vars: self.vars@,
            constraints: Seq::new(self.constraints@.len(), |k: int| self.constraints@[k]@),
        }
    }
}

/// What one variable adds to a sum: its coefficient if it is 1, else 0.
pub open spec fn term(var: usize, coeff: i8, values: Seq<bool>) -> int {
    if values[var as int] {
        coeff as int
    } else {
        0
    }
}

/// The sum of the coefficients of the variables that are 1.
pub open spec fn weighted_sum(vars: Seq<usize>, coeffs: Seq<i8>, values: Seq<bool>) -> int
    decreases vars.len(),
{
    if vars.len() == 0 {
        0
    } else {
        weighted_sum(vars.drop_last(), coeffs.drop_last(), values) + term(
            vars.last(),
            coeffs.last(),
            values,
        )
    }
}

/// Whether the values meet the constraint. A constraint that names a
/// variable that does not exist, or whose coefficients do not match its
/// variables in number, is met by nothing.
pub open spec fn holds(c: ConstraintView, values: Seq<bool>) -> bool {
    &&& c.vars.len() == c.coeffs.len()
    &&& forall|p: int| 0 <= p < c.vars.len() ==> #[trigger] c.vars[p] < values.len()
    &&& c.lower matches Some(l) ==> l <= weighted_sum(c.vars, c.coeffs, values)
    &&& c.upper matches Some(u) ==> weighted_sum(c.vars, c.coeffs, values) <= u
}

/// Whether a value lies within the variable's bounds.
pub open spec fn within_bounds(v: Variable, value: bool) -> bool {
    if value {
        v.lower <= 1 <= v.upper
    } else {
        v.lower == 0
    }
}

/// Whether the values are a feasible point of the model: one value for each
/// variable, within its bounds, and every constraint met.
pub open spec fn satisfies(m: ModelView, values: Seq<bool>) -> bool {
    &&& values.len() == m.vars.len()
    &&& forall|i: int| 0 <= i < m.vars.len() ==> within_bounds(#[trigger] m.vars[i], values[i])
    &&& forall|k: int| 0 <= k < m.constraints.len() ==> holds(#[trigger] m.constraints[k], values)
}

impl Constraint {
    /// Tests whether the values meet the constraint.
    pub fn holds_for(&self, values: &Vec<bool>) -> (r: bool)
        ensures
            r == holds(self@, values@),
    {
        let n = self.vars.len();
        if n != self.coeffs.len() {
            return false;
        }
        let mut sum: i128 = 0;
        let mut p: usize = 0;
        while p < n
            invariant
                p <= n,
                n == self.vars.len(),
                n == self.coeffs.len(),
                forall|q: int| 0 <= q < p ==> #[trigger] self.vars@[q] < values.len(),
                sum == weighted_sum(self.vars@.take(p as int), self.coeffs@.take(p as int), values@),
                -128 * p <= sum <= 127 * p,
            decreases n - p,
        {
            let v = self.vars[p];
            if v >= values.len() {
                return false;
            }
            proof {
                assert(self.vars@.take(p + 1).drop_last() =~= self.vars@.take(p as int));
                assert(self.coeffs@.take(p + 1).drop_last() =~= self.coeffs@.take(p as int));
            }
            if values[v] {
                sum = sum + self.coeffs[p] as i128;
            }
            p += 1;
        }
        proof {
            assert(self.vars@.take(n as int) =~= self.vars@);
            assert(self.coeffs@.take(n as int) =~= self.coeffs@);
        }
        let above = match self.lower {
            Some(l) => l as i128 <= sum,
            None => true,
        };
        let below = match self.upper {
            Some(u) => sum <= u as i128,
            None => true,
        };
        above && below
    }
}

impl Model {
    /// Tests whether the values are a feasible point of the model.
    pub fn is_satisfied_by(&self, values: &Vec<bool>) -> (r: bool)
        ensures
            r == satisfies(self@, values@),
    {
        if values.len() != self.vars.len() {
            return false;
        }
        let mut i: usize = 0;
        while i < self.vars.len()
            invariant
                i <= self.vars.len(),
                values.len() == self.vars.len(),
                forall|j: int| 0 <= j < i ==> within_bounds(#[trigger] self.vars@[j], values@[j]),
            decreases self.vars.len() - i,
        {
            let v = self.vars[i];
            let fits = if values[i] {
                v.lower <= 1 && 1 <= v.upper
            } else {
                v.lower == 0
            };
            if !fits {
                return false;
            }
            i += 1;
        }
        let mut k: usize = 0;
        while k < self.constraints.len()
            invariant
                k <= self.constraints.len(),
                forall|j: int| 0 <= j < k ==> holds(#[trigger] self@.constraints[j], values@),
            decreases self.constraints.len() - k,
        {
            if !self.constraints[k].holds_for(values) {
                assert(!holds(self@.constraints[k as int], values@));
                return false;
            }
            assert(self@.constraints[k as int] == self.constraints@[k as int]@);
            k += 1;
        }
        true
    }
}

} // verus!
