use vstd::prelude::*;
use crate::state::{LiteralState, negate};

verus! {

/// The per-variable record: the variable itself (as a positive literal),
/// its current value, the decision level at which it was assigned, and the
/// clause that forced it (empty for decisions and unassigned variables).
#[derive(Debug)]
pub struct Node {
    pub literal: i32,
    pub value: LiteralState,
    pub level: usize,
    pub parents: Vec<i32>,
}

impl Node {
    /// A fresh, unassigned record for the variable `literal`.
    pub fn new(literal: i32) -> (r: Node)
        ensures
            r.literal == literal,
            r.value == LiteralState::UNKNOWN,
            r.level == 0,
            r.parents@.len() == 0,
    {
        Node { literal, value: LiteralState::UNKNOWN, level: 0, parents: Vec::new() }
    }

    /// The value of the negated variable.
    pub fn negative_value(&self) -> (r: LiteralState)
        ensures
            r == negate(self.value),
    {
        match self.value {
            LiteralState::TRUE => LiteralState::FALSE,
            LiteralState::FALSE => LiteralState::TRUE,
            LiteralState::UNKNOWN => LiteralState::UNKNOWN,
        }
    }
}

} // verus!
