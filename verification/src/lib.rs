//! A first-order Markov chain model over token sequences.
//!
//! The generator is trained from an ordered sequence of tokens and then
//! sampled: a uniformly random starting state, and weighted random steps
//! along the recorded transitions.

use vstd::prelude::*;

pub mod generator;
mod rng;
pub mod token;

verus! {

/// The failure conditions of the generator, surfaced to the caller as
/// explicit results rather than panics.
#[derive(Clone, Copy, Debug, PartialEq, Eq, Structural)]
pub enum MarkovError {
    /// Training was invoked with no tokens.
    EmptyInput,
    /// A start-state sample was requested before any training occurred.
    EmptyModel,
    /// A step was requested from a token never seen as a "from" state.
    UnknownState,
    /// A step was requested from a state with no outgoing transitions.
    DeadEnd,
}

} // verus!
