use vstd::prelude::*;

verus! {

/// The verdict of a solver run.
#[derive(Clone, Copy, Debug, PartialEq, Eq, Structural)]
pub enum SolverState {
    UNSAT,
    SAT,
}

/// A three-valued truth state of a variable, a literal or a clause.
#[derive(Clone, Copy, Debug, PartialEq, Eq, Structural)]
pub enum LiteralState {
    UNKNOWN,
    TRUE,
    FALSE,
}

/// Swaps TRUE and FALSE; UNKNOWN stays UNKNOWN.
pub open spec fn negate(s: LiteralState) -> LiteralState {
    match s {
        LiteralState::TRUE => LiteralState::FALSE,
        LiteralState::FALSE => LiteralState::TRUE,
        LiteralState::UNKNOWN => LiteralState::UNKNOWN,
    }
}

} // verus!
