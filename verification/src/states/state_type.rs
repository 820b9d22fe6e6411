use vstd::prelude::*;

use super::irreducible_states::{IrreducibleStates, StateId};

verus! {

/// A quantum-number axis: either one irreducible component, or a reducible
/// space written as the sum of several irreducible components that share the
/// same label kind.
#[derive(Debug)]
pub enum StateType {
    Irreducible(IrreducibleStates),
    Sum(Vec<IrreducibleStates>),
}

/// The concatenation, in stored order, of the (label, value) pairs of a
/// sequence of irreducible components.
pub open spec fn members_pairs(ms: Seq<IrreducibleStates>) -> Seq<(StateId, i64)>
    decreases ms.len(),
{
    if ms.len() == 0 {
        Seq::empty()
    } else {
        ms[0].pairs() + members_pairs(ms.drop_first())
    }
}

/// Unfolding members_pairs at an arbitrary member boundary.
pub proof fn lemma_members_pairs_skip_unfold(ms: Seq<IrreducibleStates>, m: int)
    requires
        0 <= m < ms.len(),
    ensures
        members_pairs(ms.skip(m)) == ms[m].pairs() + members_pairs(ms.skip(m + 1)),
{
    assert(ms.skip(m).len() > 0);
    assert(ms.skip(m)[0] == ms[m]);
    assert(ms.skip(m).drop_first() =~= ms.skip(m + 1));
}

/// Taking one more member appends exactly that member's pairs.
pub proof fn lemma_members_pairs_take_step(ms: Seq<IrreducibleStates>, m: int)
    requires
        0 <= m < ms.len(),
    ensures
        members_pairs(ms.take(m + 1)) == members_pairs(ms.take(m)) + ms[m].pairs(),
    decreases m,
{
    if m == 0 {
        assert(ms.take(0) =~= Seq::<IrreducibleStates>::empty());
        assert(ms.take(1)[0] == ms[0]);
        assert(ms.take(1).drop_first() =~= Seq::<IrreducibleStates>::empty());
        assert(members_pairs(ms.take(1)) == ms[0].pairs() + members_pairs(
            Seq::<IrreducibleStates>::empty(),
        ));
        assert(members_pairs(ms.take(1)) =~= members_pairs(ms.take(0)) + ms[0].pairs());
    } else {
        let tail = ms.drop_first();
        lemma_members_pairs_take_step(tail, m - 1);
        assert(ms.take(m + 1).len() > 0);
        assert(ms.take(m + 1)[0] == ms[0]);
        assert(ms.take(m + 1).drop_first() =~= tail.take(m));
        assert(ms.take(m)[0] == ms[0]);
        assert(ms.take(m).drop_first() =~= tail.take(m - 1));
        assert(members_pairs(ms.take(m + 1)) == ms[0].pairs() + members_pairs(tail.take(m)));
        assert(members_pairs(ms.take(m)) == ms[0].pairs() + members_pairs(tail.take(m - 1)));
        assert(tail[m - 1] == ms[m]);
        assert(members_pairs(ms.take(m + 1)) =~= members_pairs(ms.take(m)) + ms[m].pairs());
    }
}

/// members_pairs splits across any take/skip boundary.
pub proof fn lemma_members_pairs_split(ms: Seq<IrreducibleStates>, i: int)
    requires
        0 <= i <= ms.len(),
    ensures
        members_pairs(ms) == members_pairs(ms.take(i)) + members_pairs(ms.skip(i)),
    decreases i,
{
    if i == 0 {
        assert(ms.take(0) =~= Seq::<IrreducibleStates>::empty());
        assert(ms.skip(0) =~= ms);
        assert(members_pairs(ms) =~= members_pairs(ms.take(0)) + members_pairs(ms.skip(0)));
    } else {
        lemma_members_pairs_split(ms, i - 1);
        lemma_members_pairs_skip_unfold(ms, i - 1);
        lemma_members_pairs_take_step(ms, i - 1);
        assert(members_pairs(ms) =~= members_pairs(ms.take(i)) + members_pairs(ms.skip(i)));
    }
}

/// Of components that all carry kind k0 and are all non-empty, the
/// concatenated pairs are at least as many as the components, and every pair
/// carries kind k0.
pub proof fn lemma_members_pairs_kind(ms: Seq<IrreducibleStates>, k0: u32)
    requires
        forall|m: int| 0 <= m < ms.len() ==> ms[m].wf(),
        forall|m: int| 0 <= m < ms.len() ==> ms[m].state_specific.kind == k0,
    ensures
        members_pairs(ms).len() >= ms.len(),
        forall|k: int|
            0 <= k < members_pairs(ms).len() ==> #[trigger] members_pairs(ms)[k].0.kind == k0,
    decreases ms.len(),
{
    if ms.len() > 0 {
        lemma_members_pairs_kind(ms.drop_first(), k0);
        assert(ms[0].wf());
        assert(forall|k: int|
            0 <= k < ms[0].pairs().len() ==> #[trigger] ms[0].pairs()[k].0.kind == k0);
    }
}

impl StateType {
    /// The flattened (label, value) pairs of this axis, in stored order.
    pub open spec fn pairs(&self) -> Seq<(StateId, i64)> {
        match self {
            StateType::Irreducible(s) => s.pairs(),
            StateType::Sum(v) => members_pairs(v@),
        }
    }

    /// The kind tag shared by every label of this axis.
    pub open spec fn spec_kind(&self) -> u32 {
        match self {
            StateType::Irreducible(s) => s.state_specific.kind,
            StateType::Sum(v) => v@[0].state_specific.kind,
        }
    }

    /// Well-formed: non-empty, and for a sum every member is non-empty and
    /// carries the same label kind.
    pub open spec fn wf(&self) -> bool {
        match self {
            StateType::Irreducible(s) => s.wf(),
            StateType::Sum(v) => {
                &&& v@.len() >= 1
                &&& forall|m: int| 0 <= m < v@.len() ==> (#[trigger] v@[m]).wf()
                &&& kinds_uniform(v@)
            },
        }
    }

    /// A well-formed axis has at least one pair, and all its pairs carry its
    /// kind.
    pub proof fn lemma_wf_pairs(&self)
        requires
            self.wf(),
        ensures
            self.pairs().len() >= 1,
            forall|k: int|
                0 <= k < self.pairs().len() ==> (#[trigger] self.pairs()[k]).0.kind
                    == self.spec_kind(),
    {
        match self {
            StateType::Irreducible(s) => {},
            StateType::Sum(v) => {
                lemma_members_pairs_kind(v@, v@[0].state_specific.kind);
            },
        }
    }

    /// A well-formed axis always reports its kind.
    pub proof fn lemma_wf_discriminant(&self)
        requires
            self.wf(),
        ensures
            self.spec_discriminant() == Some(self.spec_kind()),
    {
    }

    /// The number of basis pairs of this axis: the basis length of an
    /// irreducible axis, the summed basis lengths of a sum.
    pub fn size(&self) -> (r: usize)
        requires
            self.pairs().len() <= usize::MAX,
        ensures
            r == self.pairs().len(),
    {
        match self {
            StateType::Irreducible(s) => s.size(),
            StateType::Sum(v) => {
                let ghost all = v@;
                let mut acc: usize = 0;
                let mut m: usize = 0;
                proof {
                    assert(all.take(0) =~= Seq::<IrreducibleStates>::empty());
                }
                while m < v.len()
                    invariant
                        m <= all.len(),
                        v@ == all,
                        members_pairs(all).len() <= usize::MAX,
                        acc == members_pairs(all.take(m as int)).len(),
                    decreases all.len() - m,
                {
                    proof {
                        lemma_members_pairs_take_step(all, m as int);
                        lemma_members_pairs_split(all, m as int + 1);
                    }
                    acc = acc + v[m].size();
                    m = m + 1;
                }
                proof {
                    assert(all.take(all.len() as int) =~= all);
                }
                acc
            },
        }
    }

    /// The shared kind of this axis's labels: the label kind for an
    /// irreducible axis; for a sum, the first member's kind when all members
    /// agree on it, and nothing otherwise.
    pub fn discriminant(&self) -> (r: Option<u32>)
        requires
            match self {
                StateType::Irreducible(_) => true,
                StateType::Sum(v) => v@.len() >= 1,
            },
        ensures
            r == self.spec_discriminant(),
    {
        match self {
            StateType::Irreducible(s) => Some(s.state_specific.kind),
            StateType::Sum(v) => {
                let first = v[0].state_specific.kind;
                let mut m: usize = 1;
                while m < v.len()
                    invariant
                        1 <= m <= v@.len(),
                        self is Sum && self->Sum_0@ == v@,
                        first == v@[0].state_specific.kind,
                        forall|i: int|
                            0 <= i < m ==> (#[trigger] v@[i]).state_specific.kind == first,
                    decreases v@.len() - m,
                {
                    if v[m].state_specific.kind != first {
                        proof {
                            let mm = m as int;
                            assert(0 <= mm < v@.len() && v@[mm].state_specific.kind
                                != v@[0].state_specific.kind);
                            assert(!kinds_uniform(v@));
                        }
                        return None;
                    }
                    m = m + 1;
                }
                Some(first)
            },
        }
    }

    /// What discriminant reports, as a spec value.
    pub open spec fn spec_discriminant(&self) -> Option<u32> {
        match self {
            StateType::Irreducible(s) => Some(s.state_specific.kind),
            StateType::Sum(v) => {
                if kinds_uniform(v@) {
                    Some(v@[0].state_specific.kind)
                } else {
                    None
                }
            },
        }
    }

    /// The pair at flattened position k.
    pub fn pair_at(&self, k: usize) -> (r: (StateId, i64))
        requires
            k < self.pairs().len(),
        ensures
            r == self.pairs()[k as int],
    {
        match self {
            StateType::Irreducible(s) => (s.state_specific, s.basis[k]),
            StateType::Sum(v) => {
                let ghost all = v@;
                let n = v.len();
                let mut m: usize = 0;
                let mut kk: usize = k;
                proof {
                    assert(all.skip(0) =~= all);
                    if all.len() == 0 {
                        assert(members_pairs(all).len() == 0);
                    }
                }
                loop
                    invariant
                        m < n,
                        n == all.len(),
                        v@ == all,
                        kk <= k,
                        kk < members_pairs(all.skip(m as int)).len(),
                        members_pairs(all.skip(m as int))[kk as int] == self.pairs()[k as int],
                    decreases all.len() - m,
                {
                    proof {
                        lemma_members_pairs_skip_unfold(all, m as int);
                    }
                    let sz = v[m].basis.len();
                    if kk < sz {
                        return (v[m].state_specific, v[m].basis[kk]);
                    }
                    proof {
                        if m as int + 1 >= all.len() {
                            assert(all.skip(m as int + 1).len() == 0);
                            assert(members_pairs(all.skip(m as int + 1)).len() == 0);
                        }
                    }
                    kk = kk - sz;
                    m = m + 1;
                }
            },
        }
    }

    /// A restartable cursor over the flattened pairs.
    pub fn iter(&self) -> (r: StateTypeIter)
        requires
            self.wf(),
            self.pairs().len() <= usize::MAX,
        ensures
            r.inv(),
            r.pairs_of() == self.pairs(),
            r.pos() == 0,
    {
        let size = self.size();
        StateTypeIter { state: self.clone(), pos: 0, size }
    }
}

impl Clone for StateType {
    fn clone(&self) -> (r: Self)
        ensures
            r.pairs() == self.pairs(),
            r.wf() == self.wf(),
            self.wf() ==> r.spec_kind() == self.spec_kind(),
    {
        match self {
            StateType::Irreducible(s) => {
                let c = s.clone();
                let r = StateType::Irreducible(c);
                proof {
                    assert(r.pairs() == self.pairs());
                    assert(r.wf() == self.wf());
                }
                r
            },
            StateType::Sum(v) => {
                let ghost all = v@;
                let mut members: Vec<IrreducibleStates> = Vec::new();
                let mut m: usize = 0;
                while m < v.len()
                    invariant
                        m <= all.len(),
                        v@ == all,
                        members@.len() == m,
                        forall|i: int|
                            0 <= i < m ==> (#[trigger] members@[i]).state_specific
                                == all[i].state_specific && members@[i].basis@ == all[i].basis@,
                    decreases all.len() - m,
                {
                    members.push(v[m].clone());
                    m = m + 1;
                }
                let r = StateType::Sum(members);
                proof {
                    lemma_members_pairs_pointwise(members@, all);
                    assert(r.wf() == self.wf()) by {
                        if self.wf() {
                            assert forall|m: int| 0 <= m < members@.len() implies (
                            #[trigger] members@[m]).wf() by {
                                assert(all[m].wf());
                                assert(members@[m].wf() == all[m].wf());
                            }
                            assert forall|m: int|
                                0 <= m < members@.len() implies (
                            #[trigger] members@[m]).state_specific.kind
                                == members@[0].state_specific.kind by {
                                assert(all[m].state_specific.kind == all[0].state_specific.kind);
                            }
                        }
                        if r.wf() {
                            assert forall|m: int| 0 <= m < all.len() implies (
                            #[trigger] all[m]).wf() by {
                                assert(members@[m].wf());
                                assert(members@[m].wf() == all[m].wf());
                            }
                            assert forall|m: int|
                                0 <= m < all.len() implies (#[trigger] all[m]).state_specific.kind
                                == all[0].state_specific.kind by {
                                assert(members@[m].state_specific.kind
                                    == members@[0].state_specific.kind);
                            }
                        }
                    }
                }
                r
            },
        }
    }
}

/// Component sequences that agree member by member on label and basis have
/// the same concatenated pairs.
proof fn lemma_members_pairs_pointwise(ms1: Seq<IrreducibleStates>, ms2: Seq<IrreducibleStates>)
    requires
        ms1.len() == ms2.len(),
        forall|i: int|
            0 <= i < ms1.len() ==> (#[trigger] ms1[i]).state_specific == ms2[i].state_specific
                && ms1[i].basis@ == ms2[i].basis@,
    ensures
        members_pairs(ms1) == members_pairs(ms2),
        forall|i: int| 0 <= i < ms1.len() ==> (#[trigger] ms1[i]).pairs() == ms2[i].pairs(),
        forall|i: int| 0 <= i < ms1.len() ==> (#[trigger] ms1[i]).wf() == ms2[i].wf(),
    decreases ms1.len(),
{
    assert forall|i: int| 0 <= i < ms1.len() implies (#[trigger] ms1[i]).pairs()
        == ms2[i].pairs() by {
        assert(ms1[i].pairs() =~= ms2[i].pairs());
    }
    if ms1.len() > 0 {
        lemma_members_pairs_pointwise(ms1.drop_first(), ms2.drop_first());
        assert(members_pairs(ms1) =~= members_pairs(ms2));
    } else {
        assert(members_pairs(ms1) =~= members_pairs(ms2));
    }
}

/// All members carry the same label kind as the first.
pub open spec fn kinds_uniform(ms: Seq<IrreducibleStates>) -> bool {
    forall|m: int|
        0 <= m < ms.len() ==> (#[trigger] ms[m]).state_specific.kind == ms[0].state_specific.kind
}

/// A lazy, restartable cursor over one axis's (label, value) pairs.
pub struct StateTypeIter {
    state: StateType,
    pos: usize,
    size: usize,
}

impl StateTypeIter {
    /// The pairs this cursor walks.
    pub closed spec fn pairs_of(&self) -> Seq<(StateId, i64)> {
        self.state.pairs()
    }

    /// The position of the next pair to hand out.
    pub closed spec fn pos(&self) -> int {
        self.pos as int
    }

    pub closed spec fn inv(&self) -> bool {
        &&& self.size == self.state.pairs().len()
        &&& self.pos <= self.size
    }

    /// Hands out the next (label, value) pair, or nothing once exhausted.
    pub fn next(&mut self) -> (r: Option<(StateId, i64)>)
        requires
            old(self).inv(),
        ensures
            final(self).inv(),
            final(self).pairs_of() == old(self).pairs_of(),
            old(self).pos() < old(self).pairs_of().len() ==> {
                &&& r == Some(old(self).pairs_of()[old(self).pos()])
                &&& final(self).pos() == old(self).pos() + 1
            },
            old(self).pos() >= old(self).pairs_of().len() ==> {
                &&& r is None
                &&& final(self).pos() == old(self).pos()
            },
    {
        if self.pos < self.size {
            let p = self.state.pair_at(self.pos);
            self.pos = self.pos + 1;
            Some(p)
        } else {
            None
        }
    }
}

} // verus!
