pub mod backends;
pub mod braket;
pub mod enumeration;
pub mod irreducible_states;
pub mod operator;
pub mod state_type;
pub mod sum_states;

use vstd::pervasive::VecAdditionalExecFns;
use vstd::prelude::*;

use self::enumeration::{
    group_kind, group_wf, groups_nonempty, lemma_digits_all_max, lemma_digits_bounds,
    lemma_digits_increment, lemma_digits_zero, lemma_factor_bound, lemma_spec_size_pos,
    lemma_spec_size_split, lemma_spec_size_take_step, mixed_digits, spec_basis, spec_element,
    spec_size, space_wf, ElementModel,
};
use self::irreducible_states::StateId;
use self::state_type::{kinds_uniform, StateType};

verus! {

/// One enumerated point of the composite basis: parallel label and value
/// lists, one entry per axis, in composite-space order.
#[derive(Debug)]
pub struct StatesElement {
    pub states_specific: Vec<StateId>,
    pub values: Vec<i64>,
}

impl View for StatesElement {
    type V = ElementModel;

    open spec fn view(&self) -> ElementModel {
        ElementModel { labels: self.states_specific@, values: self.values@ }
    }
}

impl Clone for StatesElement {
    fn clone(&self) -> (r: Self)
        ensures
            r@ == self@,
    {
        let r = StatesElement {
            states_specific: clone_labels(&self.states_specific),
            values: clone_values(&self.values),
        };
        proof {
            assert(r@ =~= self@);
        }
        r
    }
}

impl PartialEq for StatesElement {
    fn eq(&self, other: &Self) -> (r: bool) {
        if self.states_specific.len() != other.states_specific.len() {
            return false;
        }
        if self.values.len() != other.values.len() {
            return false;
        }
        let mut p: usize = 0;
        while p < self.states_specific.len()
            invariant
                p <= self.states_specific@.len(),
                self.states_specific@.len() == other.states_specific@.len(),
                forall|i: int| 0 <= i < p ==> self.states_specific@[i] == other.states_specific@[i],
            decreases self.states_specific@.len() - p,
        {
            if self.states_specific[p] != other.states_specific[p] {
                return false;
            }
            p += 1;
        }
        let mut p: usize = 0;
        while p < self.values.len()
            invariant
                p <= self.values@.len(),
                self.values@.len() == other.values@.len(),
                forall|i: int| 0 <= i < p ==> self.values@[i] == other.values@[i],
            decreases self.values@.len() - p,
        {
            if self.values[p] != other.values[p] {
                return false;
            }
            p += 1;
        }
        proof {
            assert(self.states_specific@ =~= other.states_specific@);
            assert(self.values@ =~= other.values@);
        }
        true
    }
}

impl vstd::std_specs::cmp::PartialEqSpecImpl for StatesElement {
    open spec fn obeys_eq_spec() -> bool {
        true
    }

    open spec fn eq_spec(&self, other: &Self) -> bool {
        self.states_specific@ == other.states_specific@ && self.values@ == other.values@
    }
}

/// An element-wise copy of a label vector.
fn clone_labels(v: &Vec<StateId>) -> (r: Vec<StateId>)
    ensures
        r@ == v@,
{
    let mut r: Vec<StateId> = Vec::new();
    let mut k: usize = 0;
    while k < v.len()
        invariant
            k <= v@.len(),
            r@ == v@.take(k as int),
        decreases v@.len() - k,
    {
        r.push(v[k]);
        k += 1;
    }
    proof {
        assert(r@ =~= v@);
    }
    r
}

/// Why a state could not be added to a composite space.
#[derive(Clone, Copy, Debug, PartialEq, Eq, Structural)]
pub enum StatesError {
    /// An irreducible component with no values.
    EmptyBasis,
    /// A summed axis with no members.
    EmptySum,
    /// A summed axis whose members disagree on their label kind.
    MixedKinds,
    /// The space already holds an axis of this label kind.
    DuplicateKind,
}

/// The space already holds an axis of the given kind.
pub open spec fn space_has_kind(groups: Seq<Seq<(StateId, i64)>>, kind: u32) -> bool {
    exists|p: int| 0 <= p < groups.len() && group_kind(#[trigger] groups[p]) == kind
}

/// What push_state answers for a given space and candidate axis.
pub open spec fn spec_push_result(groups: Seq<Seq<(StateId, i64)>>, state: StateType) -> Result<
    (),
    StatesError,
> {
    match state {
        StateType::Irreducible(s) => {
            if s.basis@.len() == 0 {
                Err(StatesError::EmptyBasis)
            } else if space_has_kind(groups, s.state_specific.kind) {
                Err(StatesError::DuplicateKind)
            } else {
                Ok(())
            }
        },
        StateType::Sum(v) => {
            if v@.len() == 0 {
                Err(StatesError::EmptySum)
            } else if exists|m: int| 0 <= m < v@.len() && (#[trigger] v@[m]).basis@.len() == 0 {
                Err(StatesError::EmptyBasis)
            } else if !kinds_uniform(v@) {
                Err(StatesError::MixedKinds)
            } else if space_has_kind(groups, v@[0].state_specific.kind) {
                Err(StatesError::DuplicateKind)
            } else {
                Ok(())
            }
        },
    }
}

/// The well-formedness and kind facts of a space's abstract groups, derived
/// from the well-formedness of its stored axes.
proof fn lemma_groups_from_states(states: Seq<StateType>, groups: Seq<Seq<(StateId, i64)>>)
    requires
        groups.len() == states.len(),
        forall|i: int| 0 <= i < states.len() ==> groups[i] == (#[trigger] states[i]).pairs(),
        forall|i: int| 0 <= i < states.len() ==> (#[trigger] states[i]).wf(),
    ensures
        groups_nonempty(groups),
        forall|p: int| 0 <= p < groups.len() ==> group_wf(#[trigger] groups[p]),
        forall|p: int|
            0 <= p < groups.len() ==> group_kind(#[trigger] groups[p]) == states[p].spec_kind(),
{
    assert forall|p: int| 0 <= p < groups.len() implies group_wf(#[trigger] groups[p])
        && group_kind(groups[p]) == states[p].spec_kind() by {
        states[p].lemma_wf_pairs();
    }
}

/// An ordered composite space of quantum-number axes, one per label kind.
/// Axis 0, the first inserted, is the fastest varying during enumeration.
#[derive(Debug)]
pub struct States {
    groups: Vec<StateType>,
}

impl View for States {
    type V = Seq<Seq<(StateId, i64)>>;

    closed spec fn view(&self) -> Seq<Seq<(StateId, i64)>> {
        Seq::new(self.groups@.len(), |i: int| self.groups@[i].pairs())
    }
}

impl Default for States {
    fn default() -> (r: Self)
        ensures
            r@ == Seq::<Seq<(StateId, i64)>>::empty(),
            r.inv(),
    {
        let r = States { groups: Vec::new() };
        proof {
            assert(r@ =~= Seq::<Seq<(StateId, i64)>>::empty());
        }
        r
    }
}

impl States {
    /// Every stored axis is well formed and no two share a kind.
    pub closed spec fn inv(&self) -> bool {
        &&& forall|i: int| 0 <= i < self.groups@.len() ==> (#[trigger] self.groups@[i]).wf()
        &&& space_wf(self@)
    }

    /// The space's abstract groups are well formed.
    pub proof fn lemma_inv_wf(&self)
        requires
            self.inv(),
        ensures
            space_wf(self@),
            groups_nonempty(self@),
    {
        lemma_groups_from_states(self.groups@, self@);
    }

    /// The total number of basis elements: the product of the axis sizes.
    pub fn size(&self) -> (r: usize)
        requires
            self.inv(),
            spec_size(self@) <= usize::MAX,
        ensures
            r == spec_size(self@),
    {
        let ghost gs = self@;
        let n = self.groups.len();
        let mut acc: usize = 1;
        let mut p: usize = 0;
        proof {
            lemma_groups_from_states(self.groups@, gs);
            assert(gs.take(0) =~= Seq::<Seq<(StateId, i64)>>::empty());
        }
        while p < n
            invariant
                p <= n,
                n == self.groups@.len(),
                gs == self@,
                self.inv(),
                groups_nonempty(gs),
                spec_size(gs) <= usize::MAX,
                acc == spec_size(gs.take(p as int)),
            decreases n - p,
        {
            proof {
                lemma_groups_from_states(self.groups@, gs);
                lemma_spec_size_take_step(gs, p as int);
                lemma_spec_size_split(gs, p as int + 1);
                assert(groups_nonempty(gs.take(p as int + 1)));
                assert(groups_nonempty(gs.skip(p as int + 1)));
                lemma_spec_size_pos(gs.take(p as int + 1));
                lemma_spec_size_pos(gs.skip(p as int + 1));
                let a = spec_size(gs.take(p as int + 1));
                let c = spec_size(gs.skip(p as int + 1));
                assert(a <= a * c) by (nonlinear_arith)
                    requires
                        a >= 1,
                        c >= 1,
                ;
                lemma_factor_bound(gs, p as int);
            }
            let gsize = self.groups[p].size();
            proof {
                assert(gs[p as int] == self.groups@[p as int].pairs());
            }
            acc = acc * gsize;
            p += 1;
        }
        proof {
            assert(gs.take(n as int) =~= gs);
        }
        acc
    }

    /// A borrowed view of the axis at the given position.
    pub fn get_group(&self, i: usize) -> (r: &StateType)
        requires
            i < self@.len(),
        ensures
            r.pairs() == self@[i as int],
            self.inv() ==> r.wf(),
    {
        &self.groups[i]
    }

    /// The number of axes inserted so far.
    pub fn group_count(&self) -> (r: usize)
        ensures
            r == self@.len(),
    {
        self.groups.len()
    }

    /// Adds one axis to the space. The axis must be non-empty, a sum must be
    /// uniform in kind, and the axis's kind must not already be present;
    /// otherwise the exact offending error is returned and the space is left
    /// unchanged.
    pub fn push_state(&mut self, state: StateType) -> (r: Result<(), StatesError>)
        requires
            old(self).inv(),
        ensures
            final(self).inv(),
            r == spec_push_result(old(self)@, state),
            r is Ok ==> final(self)@ == old(self)@.push(state.pairs()) && state.wf(),
            r is Err ==> final(self)@ == old(self)@,
    {
        let ghost gs = self@;
        // validate the candidate's own shape
        match &state {
            StateType::Irreducible(s) => {
                if s.basis.len() == 0 {
                    return Err(StatesError::EmptyBasis);
                }
            },
            StateType::Sum(v) => {
                if v.len() == 0 {
                    return Err(StatesError::EmptySum);
                }
                let mut m: usize = 0;
                while m < v.len()
                    invariant
                        m <= v@.len(),
                        v@.len() >= 1,
                        state is Sum && state->Sum_0@ == v@,
                        self.inv(),
                        gs == self@,
                        self@ == old(self)@,
                        forall|i: int| 0 <= i < m ==> (#[trigger] v@[i]).basis@.len() >= 1,
                    decreases v@.len() - m,
                {
                    if v[m].basis.len() == 0 {
                        proof {
                            let mm = m as int;
                            assert(0 <= mm < v@.len() && v@[mm].basis@.len() == 0);
                        }
                        return Err(StatesError::EmptyBasis);
                    }
                    m += 1;
                }
                proof {
                    assert(!(exists|i: int|
                        0 <= i < v@.len() && (#[trigger] v@[i]).basis@.len() == 0));
                }
            },
        }
        // the candidate's kind; a mixed sum has none
        let kind = match state.discriminant() {
            Some(k) => k,
            None => {
                return Err(StatesError::MixedKinds);
            },
        };
        proof {
            assert(state.wf());
            assert(kind == state.spec_kind());
            assert(space_has_kind(gs, kind) ==> spec_push_result(gs, state) == Err::<
                (),
                StatesError,
            >(StatesError::DuplicateKind));
            assert(!space_has_kind(gs, kind) ==> spec_push_result(gs, state) == Ok::<
                (),
                StatesError,
            >(()));
        }
        // reject a kind the space already holds
        let n = self.groups.len();
        let mut p: usize = 0;
        while p < n
            invariant
                p <= n,
                n == self.groups@.len(),
                gs == self@,
                self@ == old(self)@,
                self.inv(),
                state.wf(),
                kind == state.spec_kind(),
                space_has_kind(gs, kind) ==> spec_push_result(gs, state) == Err::<
                    (),
                    StatesError,
                >(StatesError::DuplicateKind),
                !space_has_kind(gs, kind) ==> spec_push_result(gs, state) == Ok::<
                    (),
                    StatesError,
                >(()),
                forall|i: int| 0 <= i < p ==> group_kind(#[trigger] gs[i]) != kind,
            decreases n - p,
        {
            let existing = match self.groups[p].discriminant() {
                Some(k) => k,
                None => {
                    proof {
                        self.groups@[p as int].lemma_wf_discriminant();
                        assert(false);
                    }
                    return Err(StatesError::MixedKinds);
                },
            };
            proof {
                self.groups@[p as int].lemma_wf_discriminant();
                self.groups@[p as int].lemma_wf_pairs();
                assert(gs[p as int] == self.groups@[p as int].pairs());
                assert(group_kind(gs[p as int]) == self.groups@[p as int].spec_kind());
            }
            if existing == kind {
                proof {
                    let pp = p as int;
                    assert(0 <= pp < gs.len() && group_kind(gs[pp]) == kind);
                    assert(space_has_kind(gs, kind));
                }
                return Err(StatesError::DuplicateKind);
            }
            p += 1;
        }
        proof {
            assert(!space_has_kind(gs, kind));
        }
        // accept
        proof {
            state.lemma_wf_pairs();
        }
        self.groups.push(state);
        proof {
            assert(self@ =~= gs.push(self.groups@.last().pairs()));
            let new = self@;
            lemma_groups_from_states(self.groups@, new);
            assert forall|a: int, b: int| 0 <= a < b < new.len() implies group_kind(new[a])
                != group_kind(new[b]) by {
                if b < gs.len() {
                    assert(group_kind(new[a]) == group_kind(gs[a]));
                    assert(group_kind(new[b]) == group_kind(gs[b]));
                } else {
                    assert(group_kind(new[a]) == group_kind(gs[a]));
                    assert(group_kind(new[b]) == kind);
                }
            }
            assert(space_wf(new));
        }
        Ok(())
    }

    /// A lazy, restartable enumeration of the composite basis, in odometer
    /// order with axis 0 fastest.
    pub fn iter_elements(&self) -> (it: StatesIter)
        requires
            self.inv(),
            spec_size(self@) <= usize::MAX,
        ensures
            it.inv(),
            it.groups() == self@,
            it.index() == 0,
    {
        let size = self.size();
        let n = self.groups.len();
        let mut states: Vec<StateType> = Vec::new();
        let mut cursors: Vec<usize> = Vec::new();
        let mut p: usize = 0;
        while p < n
            invariant
                p <= n,
                n == self.groups@.len(),
                states@.len() == p,
                cursors@.len() == p,
                forall|i: int| 0 <= i < p ==> (#[trigger] states@[i]).pairs()
                    == self.groups@[i].pairs(),
                forall|i: int| 0 <= i < p ==> (#[trigger] states@[i]).wf()
                    == self.groups@[i].wf(),
                forall|i: int| 0 <= i < p ==> #[trigger] cursors@[i] == 0,
                self.inv(),
            decreases n - p,
        {
            states.push(self.groups[p].clone());
            cursors.push(0);
            p += 1;
        }
        let it = StatesIter { states, cursors, current_index: 0, size };
        proof {
            assert(it.groups() =~= self@);
            lemma_groups_from_states(self.groups@, self@);
            lemma_digits_zero(self@);
            lemma_spec_size_pos(self@);
        }
        it
    }

    /// The fully materialized basis, in enumeration order.
    pub fn get_basis(&self) -> (r: StatesBasis)
        requires
            self.inv(),
            spec_size(self@) <= usize::MAX,
        ensures
            r@ == spec_basis(self@),
            r@.len() == spec_size(self@),
            crate::states::operator::basis_uniform(r@),
    {
        let ghost gs = self@;
        let mut elements: Vec<StatesElement> = Vec::new();
        let mut it = self.iter_elements();
        loop
            invariant_except_break
                it.inv(),
                it.groups() == gs,
                gs == self@,
                spec_size(gs) <= usize::MAX,
                0 <= it.index() <= spec_size(gs),
                elements@.len() == it.index(),
                forall|i: int| 0 <= i < elements@.len() ==> (#[trigger] elements@[i])@
                    == spec_element(gs, i),
            ensures
                elements@.len() == spec_size(gs),
                forall|i: int| 0 <= i < elements@.len() ==> (#[trigger] elements@[i])@
                    == spec_element(gs, i),
            decreases spec_size(gs) - it.index(),
        {
            match it.next() {
                Some(e) => {
                    elements.push(e);
                },
                None => {
                    break ;
                },
            }
        }
        let r = StatesBasis(elements);
        proof {
            assert(r@ =~= spec_basis(gs));
            lemma_groups_from_states(self.groups@, gs);
            crate::states::operator::lemma_basis_uniform(gs);
        }
        r
    }
}

/// A lazy, restartable mixed-radix cursor over the composite basis: one
/// position cursor per axis, advanced left to right with carry.
pub struct StatesIter {
    states: Vec<StateType>,
    cursors: Vec<usize>,
    current_index: usize,
    size: usize,
}

impl StatesIter {
    /// The abstract axes this cursor enumerates.
    pub closed spec fn groups(&self) -> Seq<Seq<(StateId, i64)>> {
        Seq::new(self.states@.len(), |i: int| self.states@[i].pairs())
    }

    /// The index of the next element to hand out.
    pub closed spec fn index(&self) -> int {
        self.current_index as int
    }

    pub closed spec fn inv(&self) -> bool {
        &&& forall|i: int| 0 <= i < self.states@.len() ==> (#[trigger] self.states@[i]).wf()
        &&& self.cursors@.len() == self.states@.len()
        &&& self.size == spec_size(self.groups())
        &&& spec_size(self.groups()) <= usize::MAX
        &&& self.current_index <= self.size
        &&& (self.current_index < self.size ==> forall|p: int|
            0 <= p < self.cursors@.len() ==> #[trigger] self.cursors@[p] == mixed_digits(
                self.groups(),
                self.current_index as int,
            )[p])
    }

    /// Hands out the next basis element, or nothing once all have been seen.
    pub fn next(&mut self) -> (r: Option<StatesElement>)
        requires
            old(self).inv(),
        ensures
            final(self).inv(),
            final(self).groups() == old(self).groups(),
            old(self).index() >= spec_size(old(self).groups()) ==> r is None && final(self).index()
                == old(self).index(),
            old(self).index() < spec_size(old(self).groups()) ==> {
                &&& (r matches Some(e) && e@ == spec_element(old(self).groups(), old(self).index()))
                &&& final(self).index() == old(self).index() + 1
            },
    {
        if self.current_index >= self.size {
            return None;
        }
        let ghost gs = self.groups();
        let ghost j = self.current_index as int;
        proof {
            lemma_groups_from_states(self.states@, gs);
            lemma_digits_bounds(gs, j);
        }
        // read the element the cursors point at
        let n = self.states.len();
        let mut labels: Vec<StateId> = Vec::new();
        let mut values: Vec<i64> = Vec::new();
        let mut p: usize = 0;
        while p < n
            invariant
                p <= n,
                n == self.states@.len(),
                self.inv(),
                gs == self.groups(),
                j == self.current_index as int,
                j < spec_size(gs),
                groups_nonempty(gs),
                labels@.len() == p,
                values@.len() == p,
                forall|q: int| 0 <= q < p ==> #[trigger] labels@[q] == gs[q][mixed_digits(
                    gs,
                    j,
                )[q]].0,
                forall|q: int| 0 <= q < p ==> #[trigger] values@[q] == gs[q][mixed_digits(
                    gs,
                    j,
                )[q]].1,
            decreases n - p,
        {
            proof {
                lemma_digits_bounds(gs, j);
                assert(gs[p as int] == self.states@[p as int].pairs());
                assert(self.cursors@[p as int] == mixed_digits(gs, j)[p as int]);
            }
            let pair = self.states[p].pair_at(self.cursors[p]);
            labels.push(pair.0);
            values.push(pair.1);
            p += 1;
        }
        proof {
            assert(labels@ =~= spec_element(gs, j).labels);
            assert(values@ =~= spec_element(gs, j).values);
        }
        // advance the odometer: scan axes left to right, resetting each
        // exhausted cursor and stepping the first one that still has room
        let mut c: usize = 0;
        loop
            invariant_except_break
                labels@ == spec_element(gs, j).labels,
                values@ == spec_element(gs, j).values,
                c <= n,
                n == self.states@.len(),
                self.cursors@.len() == n,
                self.states@ == old(self).states@,
                self.current_index == old(self).current_index,
                self.size == old(self).size,
                gs == self.groups(),
                j == self.current_index as int,
                0 <= j < spec_size(gs),
                groups_nonempty(gs),
                forall|i: int| 0 <= i < self.states@.len() ==> (#[trigger] self.states@[i]).wf(),
                self.size == spec_size(gs),
                spec_size(gs) <= usize::MAX,
                forall|q: int| 0 <= q < c ==> mixed_digits(gs, j)[q] == gs[q].len() - 1,
                forall|q: int| 0 <= q < c ==> #[trigger] self.cursors@[q] == 0,
                forall|q: int| c <= q < n ==> #[trigger] self.cursors@[q] == mixed_digits(
                    gs,
                    j,
                )[q],
            ensures
                labels@ == spec_element(gs, j).labels,
                values@ == spec_element(gs, j).values,
                self.states@ == old(self).states@,
                self.current_index == old(self).current_index,
                self.size == old(self).size,
                self.cursors@.len() == n,
                j + 1 < spec_size(gs) ==> forall|q: int|
                    0 <= q < n ==> #[trigger] self.cursors@[q] == mixed_digits(gs, j + 1)[q],
            decreases n - c,
        {
            if c >= n {
                proof {
                    lemma_digits_all_max(gs, j);
                }
                break ;
            }
            proof {
                lemma_digits_bounds(gs, j);
                lemma_factor_bound(gs, c as int);
                assert(gs[c as int] == self.states@[c as int].pairs());
            }
            let sc = self.states[c].size();
            let cur = self.cursors[c];
            if cur + 1 < sc {
                self.cursors.set(c, cur + 1);
                proof {
                    lemma_digits_increment(gs, j, c as int);
                    lemma_digits_bounds(gs, j + 1);
                }
                break ;
            }
            self.cursors.set(c, 0);
            c += 1;
        }
        self.current_index += 1;
        let e = StatesElement { states_specific: labels, values };
        proof {
            lemma_digits_bounds(gs, j);
            assert(e@ =~= spec_element(gs, j));
            assert(final(self).groups() =~= gs);
        }
        Some(e)
    }
}

/// A materialized, immutable basis: the enumerated elements in order.
pub struct StatesBasis(Vec<StatesElement>);

impl View for StatesBasis {
    type V = Seq<ElementModel>;

    closed spec fn view(&self) -> Seq<ElementModel> {
        Seq::new(self.0@.len(), |i: int| self.0@[i]@)
    }
}

impl StatesBasis {
    /// Wraps an explicit list of elements, for bases assembled or filtered
    /// by hand.
    pub fn from_elements(elements: Vec<StatesElement>) -> (r: Self)
        ensures
            r@.len() == elements@.len(),
            forall|i: int| 0 <= i < elements@.len() ==> r@[i] == (#[trigger] elements@[i])@,
    {
        StatesBasis(elements)
    }

    /// The number of basis elements.
    pub fn len(&self) -> (r: usize)
        ensures
            r == self@.len(),
    {
        self.0.len()
    }

    /// The element at the given position.
    pub fn get(&self, i: usize) -> (r: &StatesElement)
        requires
            i < self@.len(),
        ensures
            r@ == self@[i as int],
    {
        &self.0[i]
    }
}

/// An element-wise copy of a value vector.
fn clone_values(v: &Vec<i64>) -> (r: Vec<i64>)
    ensures
        r@ == v@,
{
    let mut r: Vec<i64> = Vec::new();
    let mut k: usize = 0;
    while k < v.len()
        invariant
            k <= v@.len(),
            r@ == v@.take(k as int),
        decreases v@.len() - k,
    {
        r.push(v[k]);
        k += 1;
    }
    proof {
        assert(r@ =~= v@);
    }
    r
}

} // verus!
