use vstd::prelude::*;

verus! {

/// What can go wrong while balancing a roster or solving an assignment.
#[derive(Debug, Clone, PartialEq, Eq, Structural)]
pub enum AppError {
    /// A bucket already holds more people than it has seats for.
    CapacityExceeded { supply: usize, capacity: usize },
    /// The counts cannot be split into even buckets that absorb the whole
    /// flexible pool.
    ImbalanceUnresolved,
    /// No assignment satisfies every hard constraint.
    Infeasible,
    /// A solution read back from the solver breaks a structural invariant.
    InternalConsistency,
    /// The solver stopped without an answer for another reason.
    SolverFailure,
    /// A slot has no runs, so it is neither a morning nor an afternoon slot.
    SlotWithoutRuns,
}

/// The description of each kind of failure.
pub open spec fn error_message(e: AppError) -> Seq<char> {
    match e {
        AppError::CapacityExceeded { .. } => "capacity exceeded"@,
        AppError::ImbalanceUnresolved => "imbalance unresolved"@,
        AppError::Infeasible => "no feasible assignment"@,
        AppError::InternalConsistency => "solution is internally inconsistent"@,
        AppError::SolverFailure => "the solver failed"@,
        AppError::SlotWithoutRuns => "slot has no runs"@,
    }
}

impl AppError {
    /// A short human-readable description of the failure.
    pub fn message(&self) -> (r: String)
        ensures
            r@ == error_message(*self),
    {
        proof {
            reveal_strlit("capacity exceeded");
            reveal_strlit("imbalance unresolved");
            reveal_strlit("no feasible assignment");
            reveal_strlit("solution is internally inconsistent");
            reveal_strlit("the solver failed");
            reveal_strlit("slot has no runs");
        }
        match self {
            AppError::CapacityExceeded { .. } => String::from_str("capacity exceeded"),
            AppError::ImbalanceUnresolved => String::from_str("imbalance unresolved"),
            AppError::Infeasible => String::from_str("no feasible assignment"),
            AppError::InternalConsistency => String::from_str("solution is internally inconsistent"),
            AppError::SolverFailure => String::from_str("the solver failed"),
            AppError::SlotWithoutRuns => String::from_str("slot has no runs"),
        }
    }
}

} // verus!
