use vstd::prelude::*;

verus! {

/// One label of a quantum-number axis: a structural kind tag plus a payload
/// (for example the magnitude distinguishing two spin labels of the same
/// kind). Two labels describe the same axis exactly when their kinds agree,
/// whatever their payloads.
#[derive(Clone, Copy, Debug, PartialEq, Eq, Structural, Hash)]
pub struct StateId {
    pub kind: u32,
    pub payload: i64,
}

/// A single irreducible component of a quantum-number axis: one label
/// together with the ordered, non-empty list of values that quantum number
/// can take.
#[derive(Debug)]
pub struct IrreducibleStates {
    pub state_specific: StateId,
    pub basis: Vec<i64>,
}

impl IrreducibleStates {
    /// The (label, value) pairs of this component, in stored order.
    pub open spec fn pairs(&self) -> Seq<(StateId, i64)> {
        Seq::new(self.basis@.len(), |k: int| (self.state_specific, self.basis@[k]))
    }

    pub open spec fn wf(&self) -> bool {
        self.basis@.len() >= 1
    }

    pub fn new(state_specific: StateId, basis: Vec<i64>) -> (r: Self)
        requires
            basis@.len() >= 1,
        ensures
            r.state_specific == state_specific,
            r.basis@ == basis@,
            r.wf(),
    {
        IrreducibleStates { state_specific, basis }
    }

    pub fn size(&self) -> (r: usize)
        ensures
            r == self.pairs().len(),
    {
        self.basis.len()
    }
}

impl Clone for IrreducibleStates {
    fn clone(&self) -> (r: Self)
        ensures
            r.state_specific == self.state_specific,
            r.basis@ == self.basis@,
            r.pairs() == self.pairs(),
    {
        let mut basis: Vec<i64> = Vec::new();
        let mut k: usize = 0;
        while k < self.basis.len()
            invariant
                k <= self.basis@.len(),
                basis@ == self.basis@.take(k as int),
            decreases self.basis@.len() - k,
        {
            basis.push(self.basis[k]);
            k += 1;
        }
        proof {
            assert(basis@ =~= self.basis@);
        }
        let r = IrreducibleStates { state_specific: self.state_specific, basis };
        proof {
            assert(r.pairs() =~= self.pairs());
        }
        r
    }
}

} // verus!
