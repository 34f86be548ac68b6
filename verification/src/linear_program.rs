//! Integer programs as plain values, and their solution with `good_lp` and its
//! `microlp` backend.
use vstd::prelude::*;
use good_lp::constraint::geq;
use good_lp::{default_solver, variable, Expression, ProblemVariables, Solution, SolverModel, Variable};

verus! {

/// `constant + Σ coefficient · variable`, each term a variable index and a coefficient.
pub struct LinearTerms {
    pub terms: Vec<(usize, i32)>,
    pub constant: i32,
}

impl View for LinearTerms {
    type V = (Seq<(usize, i32)>, i32);

    open spec fn view(&self) -> (Seq<(usize, i32)>, i32) {
        (self.terms@, self.constant)
    }
}

/// An integer program: one integer variable per bound pair, rows whose value
/// must be at least the given one, and an objective to minimise.
pub struct IlpModel {
    pub bounds: Vec<(i32, i32)>,
    pub at_least: Vec<(LinearTerms, i32)>,
    pub objective: LinearTerms,
}

/// The rows as plain values.
pub open spec fn rows_view(rows: Seq<(LinearTerms, i32)>) -> Seq<((Seq<(usize, i32)>, i32), i32)> {
    rows.map_values(|r: (LinearTerms, i32)| (r.0@, r.1))
}

/// Every term of `t` names one of the `n` variables.
pub open spec fn terms_within(t: (Seq<(usize, i32)>, i32), n: int) -> bool {
    forall|k: int| 0 <= k < t.0.len() ==> (#[trigger] t.0[k]).0 < n
}

/// Every term of the model names one of its variables.
pub open spec fn model_within(m: &IlpModel) -> bool {
    let n = m.bounds@.len() as int;
    &&& forall|k: int| 0 <= k < m.at_least@.len() ==> terms_within((#[trigger] m.at_least@[k]).0@, n)
    &&& terms_within(m.objective@, n)
}

/// The values `microlp` gives the variables of an integer program (bounds,
/// rows held at least at their value, objective to minimise), or `None` when
/// it reports an error.
pub uninterp spec fn ilp_solution(
    bounds: Seq<(i32, i32)>,
    at_least: Seq<((Seq<(usize, i32)>, i32), i32)>,
    objective: (Seq<(usize, i32)>, i32),
) -> Option<Seq<i32>>;

/// The values of an optional solution, as a sequence.
pub open spec fn values_view(r: Option<Vec<i32>>) -> Option<Seq<i32>> {
    match r {
        Some(v) => Some(v@),
        None => None,
    }
}

/// Builds the program with `good_lp` (`variable().integer().clamp(..)`,
/// `constraint::geq` rows, `minimise`) and solves it with `microlp`
/// (`SolverModel::solve`), reading each variable with `Solution::value` as an
/// `i32`. `microlp` runs with no gap and no time limit, so its answer is named
/// as a function of the program alone. Claimed: the answer is that name, with
/// one value per variable. Every variable index lies within the program
/// (`model_within`), so no lookup of a variable fails. Not claimed: that the
/// values satisfy the rows or are optimal: `microlp` checks its rounded
/// candidates against the rows in floating point with a tolerance, which is
/// exact only while the sums stay small.
#[verifier::external_body]
pub(crate) fn ilp_solve(m: &IlpModel) -> (r: Option<Vec<i32>>)
    requires
        model_within(m),
    ensures
        ilp_solution(m.bounds@, rows_view(m.at_least@), m.objective@) == values_view(r),
        r matches Some(v) ==> v@.len() == m.bounds@.len(),
{
    let mut vars = ProblemVariables::new();
    let xs: Vec<Variable> = m.bounds.iter().map(|b| vars.add(variable().integer().clamp(b.0, b.1))).collect();
    let side = |t: &LinearTerms| t.terms.iter().map(|e| e.1 * xs[e.0]).sum::<Expression>() + t.constant;
    let s = default_solver(vars.minimise(side(&m.objective)))
        .with_all(m.at_least.iter().map(|r| geq(side(&r.0), r.1))).solve().ok()?;
    Some(xs.iter().map(|x| s.value(*x) as i32).collect())
}

} // verus!
