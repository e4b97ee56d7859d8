//! What greeting a newly approved member receives.

use vstd::prelude::*;

verus! {

/// Whether adding a member posts a greeting, applies the default role, or
/// both.
#[derive(Debug, Clone, Copy, PartialEq, Eq, Structural)]
pub enum GreetBehaviour {
    Greet,
    ApplyRole,
    Both,
}

impl GreetBehaviour {
    /// Whether a greeting is posted.
    pub fn greet(&self) -> (r: bool)
        ensures
            r == (*self is Greet || *self is Both),
    {
        match self {
            GreetBehaviour::Greet | GreetBehaviour::Both => true,
            _ => false,
        }
    }

    /// Whether the default role is applied.
    pub fn apply_role(&self) -> (r: bool)
        ensures
            r == (*self is ApplyRole || *self is Both),
    {
        match self {
            GreetBehaviour::ApplyRole | GreetBehaviour::Both => true,
            _ => false,
        }
    }
}

} // verus!
