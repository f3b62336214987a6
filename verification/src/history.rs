//! The revocation-history contract: a height-indexed, append-mostly stack of
//! channel states that a real channel retains for dispute resolution. The
//! core only depends on the interface; any conforming store may be plugged
//! in, so no method carries a behavioural contract here.

use vstd::prelude::*;

verus! {

/// A height-indexed stack of channel states.
pub trait History: Sized {
    type State;

    type Error;

    /// Current size of the stack.
    fn height(&self) -> usize;

    /// The state stored at a height.
    fn get(&self, height: usize) -> Result<Self::State, Self::Error>;

    /// The newest state.
    fn top(&self) -> Result<Self::State, Self::Error>;

    /// The oldest state.
    fn bottom(&self) -> Result<Self::State, Self::Error>;

    /// Inspect beyond the bottom; whether this pops, peeks or compacts is an
    /// unresolved design choice left to the surrounding system.
    fn dig(&self) -> Result<Self::State, Self::Error>;

    /// Append a new top, failing with the store's own error if the state
    /// cannot be kept.
    fn push(&mut self, state: Self::State) -> Result<(), Self::Error>;
}

} // verus!
