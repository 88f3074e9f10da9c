use vstd::prelude::*;

verus! {

/// Marks an entity that the player can click to send the ghost towards it.
#[derive(Clone, Copy, Debug, PartialEq, Eq, Structural)]
pub struct Clickable;

/// Raised when the ghost `source` has reached the interactive entity `target`.
#[derive(Clone, Copy, Debug, PartialEq, Eq, Structural)]
pub struct GhostInteractionEvent {
    pub source: usize,
    pub target: usize,
}

} // verus!
