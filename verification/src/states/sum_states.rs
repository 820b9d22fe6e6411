use vstd::prelude::*;

use super::irreducible_states::IrreducibleStates;

verus! {

/// A bare collection of irreducible components, before they are wrapped into
/// a summed axis.
#[derive(Debug)]
pub struct SumStates(pub Vec<IrreducibleStates>);

impl SumStates {
    /// The number of irreducible components held.
    pub fn size(&self) -> (r: usize)
        ensures
            r == self.0@.len(),
    {
        self.0.len()
    }
}

} // verus!
