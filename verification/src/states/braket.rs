use vstd::prelude::*;

use super::irreducible_states::StateId;
use super::StatesElement;

verus! {

/// A full bra/ket pair of basis elements.
#[derive(Debug)]
pub struct Braket {
    pub ket: StatesElement,
    pub bra: StatesElement,
}

/// The bra/ket (label, value) pair of one action axis, as handed to a matrix
/// element rule.
#[derive(Clone, Copy, Debug, PartialEq)]
pub struct StateBraket {
    pub ket: (StateId, i64),
    pub bra: (StateId, i64),
}

} // verus!
