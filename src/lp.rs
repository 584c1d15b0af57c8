//! The integer-programming solver, reached through good_lp and its pure-Rust
//! microlp backend. This is the one place where the library takes the
//! solver's word: the program handed over is built and stated in verified
//! code (`solver::slot_objective`, `solver::slot_constraints`), and the
//! assignment read back is checked in full by `solver::read_placements`.

use vstd::prelude::*;
use good_lp::{microlp, variable, Expression, ProblemVariables, ResolutionError, Solution, SolverModel};
use crate::program::{BinaryProgram, constraints_of, optimal, feasible, point_of, program_well_formed};

verus! {

/// Relies on good_lp with its microlp solver: `ProblemVariables::add_vector`
/// with `variable().binary()` for the variables, `maximise` and `using(microlp)`,
/// `add_constraint` with `Expression::leq` for every constraint, `solve`, and
/// `Solution::value`, which rounds a binary variable to 0.0 or 1.0. No time
/// limit is set and good_lp's microlp model asks for a zero MIP gap, so a
/// solution is optimal; microlp reports `Infeasible` only when no feasible
/// assignment exists (`Problem::solve`). The error is `true` for
/// `ResolutionError::Infeasible`. Every variable used belongs to the one
/// problem built here, and `requires` keeps every term's index below
/// `n_vars`, so neither good_lp's nor microlp's variable-index checks fail;
/// `Solution::value` also relies on microlp's integrality tolerance, which
/// its integer solutions meet.
#[verifier::external_body]
pub(crate) fn solve_binary(p: &BinaryProgram) -> (r: Result<Vec<i64>, bool>)
    requires
        program_well_formed(p.n_vars as int, p.objective@, constraints_of(p)),
    ensures
        r is Ok ==> optimal(p.n_vars as int, p.objective@, constraints_of(p), point_of(r->Ok_0@)),
        r is Err && r->Err_0 ==> forall|x: Seq<int>| !feasible(p.n_vars as int, constraints_of(p), x),
{
    let mut vars = ProblemVariables::new();
    let xs = vars.add_vector(variable().binary(), p.n_vars);
    let sum = |ts: &Vec<_>| ts.iter().map(|&(v, c)| c * xs[v]).sum::<Expression>();
    let mut model = vars.maximise(sum(&p.objective)).using(microlp);
    for c in &p.constraints {
        model.add_constraint(sum(&c.terms).leq(c.rhs));
    }
    match model.solve() {
        Ok(s) => Ok(xs.iter().map(|x| s.value(*x) as i64).collect()),
        Err(e) => Err(matches!(e, ResolutionError::Infeasible)),
    }
}

} // verus!
