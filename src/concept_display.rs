use vstd::prelude::*;

verus! {

/// A question as the player reads it on screen.
#[derive(Clone, Debug)]
pub struct Question {
    pub text: String,
}

} // verus!
