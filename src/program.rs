use vstd::prelude::*;

verus! {

/// A linear constraint over 0/1 variables as plain values: the terms
/// `(variable, coefficient)` and the right-hand side of `sum <= rhs`.
pub type LinearSpec = (Seq<(usize, i32)>, i32);

/// The constraint `sum of coefficient * x[variable] <= rhs`.
#[derive(Debug, Clone)]
pub struct LinearConstraint {
    pub terms: Vec<(usize, i32)>,
    pub rhs: i32,
}

/// An integer program over `n_vars` variables that take the values 0 or 1:
/// maximise the objective, a sum of `(variable, coefficient)` terms, subject
/// to every constraint.
#[derive(Debug, Clone)]
pub struct BinaryProgram {
    pub n_vars: usize,
    pub objective: Vec<(usize, i32)>,
    pub constraints: Vec<LinearConstraint>,
}

/// Constraints as plain values.
pub open spec fn linear_views(cs: Seq<LinearConstraint>) -> Seq<LinearSpec> {
    cs.map_values(|c: LinearConstraint| (c.terms@, c.rhs))
}

/// Adding a constraint adds its plain value.
pub proof fn lemma_views_push(cs: Seq<LinearConstraint>, c: LinearConstraint)
    ensures
        linear_views(cs.push(c)) == linear_views(cs).push((c.terms@, c.rhs)),
{
    assert(linear_views(cs.push(c)) =~= linear_views(cs).push((c.terms@, c.rhs)));
}

/// The plain values of two runs of constraints put together.
pub proof fn lemma_views_append(a: Seq<LinearConstraint>, b: Seq<LinearConstraint>)
    ensures
        linear_views(a + b) == linear_views(a) + linear_views(b),
{
    assert(linear_views(a + b) =~= linear_views(a) + linear_views(b));
}

/// Constraints whose terms are all in range stay so when put together.
pub proof fn lemma_all_in_range_append(a: Seq<LinearSpec>, b: Seq<LinearSpec>, n: int)
    requires
        all_in_range(a, n),
        all_in_range(b, n),
    ensures
        all_in_range(a + b, n),
{
    assert forall|c: int| 0 <= c < (a + b).len() implies terms_in_range((#[trigger] (a + b)[c]).0, n) by {
        if c < a.len() {
            assert((a + b)[c] == a[c]);
        } else {
            assert((a + b)[c] == b[c - a.len()]);
        }
    }
}

/// The constraints of `p` as plain values.
pub open spec fn constraints_of(p: &BinaryProgram) -> Seq<LinearSpec> {
    linear_views(p.constraints@)
}

/// The value of the terms at point `x`.
pub open spec fn linear_value(terms: Seq<(usize, i32)>, x: Seq<int>) -> int
    decreases terms.len(),
{
    if terms.len() == 0 {
        0
    } else {
        linear_value(terms.drop_last(), x) + terms.last().1 * x[terms.last().0 as int]
    }
}

/// Every term names one of the `n` variables.
pub open spec fn terms_in_range(terms: Seq<(usize, i32)>, n: int) -> bool {
    forall|t: int| 0 <= t < terms.len() ==> (#[trigger] terms[t]).0 < n
}

/// Every term of every constraint names one of the `n` variables.
pub open spec fn all_in_range(constraints: Seq<LinearSpec>, n: int) -> bool {
    forall|c: int| 0 <= c < constraints.len() ==> terms_in_range((#[trigger] constraints[c]).0, n)
}

/// Every term of the objective and of every constraint names a variable of
/// the program.
pub open spec fn program_well_formed(n_vars: int, objective: Seq<(usize, i32)>, constraints: Seq<LinearSpec>) -> bool {
    &&& terms_in_range(objective, n_vars)
    &&& all_in_range(constraints, n_vars)
}

/// `x` gives each of the `n` variables the value 0 or 1.
pub open spec fn binary_point(n: int, x: Seq<int>) -> bool {
    x.len() == n && forall|v: int| 0 <= v < n ==> #[trigger] x[v] == 0 || x[v] == 1
}

/// Every coefficient is 0 or more.
pub open spec fn nonnegative_terms(terms: Seq<(usize, i32)>) -> bool {
    forall|t: int| 0 <= t < terms.len() ==> (#[trigger] terms[t]).1 >= 0
}

/// With coefficients and values of 0 or more, the sum is at least any one
/// term, and at least any two terms together.
pub proof fn lemma_sum_bounds(terms: Seq<(usize, i32)>, x: Seq<int>)
    requires
        nonnegative_terms(terms),
        terms_in_range(terms, x.len() as int),
        forall|v: int| 0 <= v < x.len() ==> #[trigger] x[v] >= 0,
    ensures
        linear_value(terms, x) >= 0,
        forall|j: int| 0 <= j < terms.len()
            ==> linear_value(terms, x) >= (#[trigger] terms[j]).1 * x[terms[j].0 as int],
        forall|j1: int, j2: int| 0 <= j1 < j2 < terms.len()
            ==> linear_value(terms, x) >= (#[trigger] terms[j1]).1 * x[terms[j1].0 as int]
                + (#[trigger] terms[j2]).1 * x[terms[j2].0 as int],
    decreases terms.len(),
{
    if terms.len() > 0 {
        let init = terms.drop_last();
        lemma_sum_bounds(init, x);
        let l = terms.last();
        assert(l.1 * x[l.0 as int] >= 0) by (nonlinear_arith)
            requires
                l.1 >= 0,
                x[l.0 as int] >= 0;
        assert forall|j: int| 0 <= j < terms.len()
            implies linear_value(terms, x) >= (#[trigger] terms[j]).1 * x[terms[j].0 as int] by {
            if j < terms.len() - 1 {
                assert(terms[j] == init[j]);
            }
        }
        assert forall|j1: int, j2: int| 0 <= j1 < j2 < terms.len()
            implies linear_value(terms, x) >= (#[trigger] terms[j1]).1 * x[terms[j1].0 as int]
                + (#[trigger] terms[j2]).1 * x[terms[j2].0 as int] by {
            assert(terms[j1] == init[j1]);
            if j2 < terms.len() - 1 {
                assert(terms[j2] == init[j2]);
            }
        }
    }
}

/// `x` is a 0/1 point that meets every constraint.
pub open spec fn feasible(n_vars: int, constraints: Seq<LinearSpec>, x: Seq<int>) -> bool {
    &&& binary_point(n_vars, x)
    &&& forall|c: int| 0 <= c < constraints.len()
        ==> linear_value((#[trigger] constraints[c]).0, x) <= constraints[c].1
}

/// `x` is feasible and no feasible point has a larger objective.
pub open spec fn optimal(n_vars: int, objective: Seq<(usize, i32)>, constraints: Seq<LinearSpec>, x: Seq<int>) -> bool {
    &&& feasible(n_vars, constraints, x)
    &&& forall|y: Seq<int>| #[trigger] feasible(n_vars, constraints, y)
        ==> linear_value(objective, y) <= linear_value(objective, x)
}

/// The values of a solution as integers.
pub open spec fn point_of(values: Seq<i64>) -> Seq<int> {
    values.map_values(|v: i64| v as int)
}

} // verus!
