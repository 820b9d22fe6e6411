use vstd::prelude::*;

use super::backends::{Array2Backed, DMatrixBacked, MatBacked, SMatrixBacked};
use super::braket::StateBraket;
use super::enumeration::{
    group_wf, groups_nonempty, lemma_element_shape, lemma_spec_size_pos, spec_basis, spec_element,
    spec_size, ElementModel,
};
use super::irreducible_states::StateId;
use super::{StatesBasis, StatesElement};

verus! {

/// An operator matrix over a composite basis, wrapping one of the supported
/// matrix backends.
pub struct Operator<M> {
    pub backed: M,
}

/// Every element of the basis has one entry per axis, with the same width
/// and the same per-position label kinds as the first element.
pub open spec fn basis_uniform(b: Seq<ElementModel>) -> bool {
    &&& forall|i: int| 0 <= i < b.len() ==> (#[trigger] b[i]).labels.len() == b[0].labels.len()
    &&& forall|i: int| 0 <= i < b.len() ==> (#[trigger] b[i]).values.len() == b[0].labels.len()
    &&& forall|i: int, q: int|
        0 <= i < b.len() && 0 <= q < b[0].labels.len() ==> (#[trigger] b[i].labels[q]).kind
            == b[0].labels[q].kind
}

/// The basis produced by enumerating well-formed axes is uniform.
pub proof fn lemma_basis_uniform(groups: Seq<Seq<(StateId, i64)>>)
    requires
        forall|p: int| 0 <= p < groups.len() ==> group_wf(#[trigger] groups[p]),
    ensures
        basis_uniform(spec_basis(groups)),
{
    assert(groups_nonempty(groups));
    lemma_spec_size_pos(groups);
    let b = spec_basis(groups);
    lemma_element_shape(groups, 0);
    assert forall|i: int| 0 <= i < b.len() implies (#[trigger] b[i]).labels.len()
        == b[0].labels.len() && b[i].values.len() == b[0].labels.len() by {
        lemma_element_shape(groups, i);
    }
    assert forall|i: int, q: int|
        0 <= i < b.len() && 0 <= q < b[0].labels.len() implies (#[trigger] b[i].labels[q]).kind
        == b[0].labels[q].kind by {
        lemma_element_shape(groups, i);
        lemma_element_shape(groups, 0);
    }
}

/// Some label of the given kind occurs in the list.
pub open spec fn spec_has_kind(labels: Seq<StateId>, kind: u32) -> bool {
    exists|p: int| 0 <= p < labels.len() && (#[trigger] labels[p]).kind == kind
}

/// The first position whose label carries the given kind (the list length
/// if none does).
pub open spec fn find_kind(labels: Seq<StateId>, kind: u32) -> int
    decreases labels.len(),
{
    if labels.len() == 0 {
        0
    } else if labels[0].kind == kind {
        0
    } else {
        1 + find_kind(labels.drop_first(), kind)
    }
}

/// When the kind occurs, find_kind names its first occurrence.
pub proof fn lemma_find_kind(labels: Seq<StateId>, kind: u32)
    requires
        spec_has_kind(labels, kind),
    ensures
        0 <= find_kind(labels, kind) < labels.len(),
        labels[find_kind(labels, kind)].kind == kind,
        forall|q: int| 0 <= q < find_kind(labels, kind) ==> (#[trigger] labels[q]).kind != kind,
    decreases labels.len(),
{
    if labels[0].kind == kind {
    } else {
        let tail = labels.drop_first();
        let p = choose|p: int| 0 <= p < labels.len() && (#[trigger] labels[p]).kind == kind;
        assert(p >= 1);
        assert(0 <= p - 1 < tail.len() && tail[p - 1].kind == kind);
        lemma_find_kind(tail, kind);
        let fk = find_kind(tail, kind);
        assert(labels[1 + fk] == tail[fk]);
        assert forall|q: int| 0 <= q < 1 + fk implies (#[trigger] labels[q]).kind != kind by {
            if q >= 1 {
                assert(tail[q - 1].kind != kind);
                assert(labels[q] == tail[q - 1]);
            }
        }
    }
}

/// The action positions: for each action label, the first basis position of
/// its kind.
pub open spec fn action_positions(labels: Seq<StateId>, action: Seq<StateId>) -> Seq<usize> {
    Seq::new(action.len(), |a: int| find_kind(labels, action[a].kind) as usize)
}

/// Position p is one of the action positions.
pub open spec fn contains_pos(idx: Seq<usize>, p: int) -> bool {
    exists|a: int| 0 <= a < idx.len() && (#[trigger] idx[a]) == p
}

/// Elements i and j agree, label and value, on every position the operator
/// does not act on.
pub open spec fn spectators_agree(b: Seq<ElementModel>, idx: Seq<usize>, i: int, j: int) -> bool {
    forall|q: int|
        0 <= q < b[i].labels.len() && !contains_pos(idx, q) ==> (#[trigger] b[i].labels[q])
            == b[j].labels[q] && b[i].values[q] == b[j].values[q]
}

/// The bra/ket pairs handed to the rule for entry (i, j): at each action
/// position, the ket is element i's pair and the bra element j's.
pub open spec fn spec_brakets(b: Seq<ElementModel>, idx: Seq<usize>, i: int, j: int) -> Seq<
    StateBraket,
> {
    Seq::new(
        idx.len(),
        |a: int|
            StateBraket {
                ket: (b[i].labels[idx[a] as int], b[i].values[idx[a] as int]),
                bra: (b[j].labels[idx[a] as int], b[j].values[idx[a] as int]),
            },
    )
}

/// The rule accepts any braket list.
pub open spec fn rule_callable<E, F: Fn(Vec<StateBraket>) -> E>(rule: F) -> bool {
    forall|bk: Vec<StateBraket>| #[trigger] call_requires(rule, (bk,))
}

/// What entry (i, j) of the operator matrix must be: the additive identity
/// when any spectator position differs between the two elements, and
/// otherwise a value the rule can return for the action brakets.
pub open spec fn mel_entry_ok<E, F: Fn(Vec<StateBraket>) -> E>(
    b: Seq<ElementModel>,
    idx: Seq<usize>,
    zero: E,
    rule: F,
    i: int,
    j: int,
    r: E,
) -> bool {
    if spectators_agree(b, idx, i, j) {
        exists|bk: Vec<StateBraket>|
            bk@ == spec_brakets(b, idx, i, j) && #[trigger] call_ensures(rule, (bk,), r)
    } else {
        r == zero
    }
}

/// The whole matrix is correct: square over the basis, every entry as
/// mel_entry_ok demands, with entry (i, j) stored row-major at i * n + j.
pub open spec fn operator_ok<E, F: Fn(Vec<StateBraket>) -> E>(
    b: Seq<ElementModel>,
    action: Seq<StateId>,
    zero: E,
    rule: F,
    entries: Seq<E>,
) -> bool {
    let n = b.len();
    let idx = action_positions(b[0].labels, action);
    &&& entries.len() == n * n
    &&& forall|i: int, j: int|
        0 <= i < n && 0 <= j < n ==> mel_entry_ok(
            b,
            idx,
            zero,
            rule,
            i,
            j,
            #[trigger] entries[i * n + j],
        )
}

/// Whether position x occurs in the index list.
fn contains_idx(idx: &Vec<usize>, x: usize) -> (r: bool)
    ensures
        r == contains_pos(idx@, x as int),
{
    let mut a: usize = 0;
    while a < idx.len()
        invariant
            a <= idx@.len(),
            forall|q: int| 0 <= q < a ==> (#[trigger] idx@[q]) != x,
        decreases idx@.len() - a,
    {
        if idx[a] == x {
            proof {
                let aa = a as int;
                assert(0 <= aa < idx@.len() && idx@[aa] == x as int);
            }
            return true;
        }
        a += 1;
    }
    proof {
        assert(!contains_pos(idx@, x as int));
    }
    false
}

/// The first position of the given kind in the first element's labels.
fn find_position(first: &StatesElement, kind: u32) -> (pos: usize)
    requires
        spec_has_kind(first@.labels, kind),
    ensures
        pos == find_kind(first@.labels, kind),
        pos < first@.labels.len(),
        first@.labels[pos as int].kind == kind,
{
    let ghost labels = first@.labels;
    let width = first.states_specific.len();
    let mut p: usize = 0;
    while p < width
        invariant
            p <= width,
            width == labels.len(),
            labels == first@.labels,
            spec_has_kind(labels, kind),
            forall|q: int| 0 <= q < p ==> (#[trigger] labels[q]).kind != kind,
        decreases width - p,
    {
        if first.states_specific[p].kind == kind {
            proof {
                lemma_find_kind(labels, kind);
                let fk = find_kind(labels, kind);
                if fk < p {
                    assert(labels[fk].kind != kind);
                }
                if (p as int) < fk {
                    assert(labels[p as int].kind != kind);
                }
            }
            return p;
        }
        p += 1;
    }
    proof {
        lemma_find_kind(labels, kind);
        assert(false);
    }
    0
}

/// The position of each action label's kind within the basis elements, in
/// the order the action labels are given.
pub fn action_indices(elements: &StatesBasis, action_states: &Vec<StateId>) -> (r: Vec<usize>)
    requires
        elements@.len() >= 1,
        forall|a: int|
            0 <= a < action_states@.len() ==> spec_has_kind(
                elements@[0].labels,
                (#[trigger] action_states@[a]).kind,
            ),
    ensures
        r@ == action_positions(elements@[0].labels, action_states@),
        forall|a: int| 0 <= a < r@.len() ==> (#[trigger] r@[a]) < elements@[0].labels.len(),
{
    let ghost labels = elements@[0].labels;
    let first = elements.get(0);
    let mut r: Vec<usize> = Vec::new();
    let mut a: usize = 0;
    while a < action_states.len()
        invariant
            a <= action_states@.len(),
            r@.len() == a,
            first@ == elements@[0],
            labels == elements@[0].labels,
            forall|q: int|
                0 <= q < action_states@.len() ==> spec_has_kind(
                    labels,
                    (#[trigger] action_states@[q]).kind,
                ),
            forall|q: int|
                0 <= q < a ==> (#[trigger] r@[q]) == find_kind(labels, action_states@[q].kind)
                    && r@[q] < labels.len(),
        decreases action_states@.len() - a,
    {
        let pos = find_position(first, action_states[a].kind);
        r.push(pos);
        a += 1;
    }
    proof {
        assert(r@ =~= action_positions(elements@[0].labels, action_states@));
    }
    r
}

/// One matrix element: zero when the two elements differ on any position
/// the operator does not act on, and otherwise the rule's value for the
/// action brakets of (ket i, bra j).
pub fn get_mel<E: Copy, F: Fn(Vec<StateBraket>) -> E>(
    elements: &StatesBasis,
    indices: &Vec<usize>,
    zero: E,
    mat_element: &F,
    i: usize,
    j: usize,
) -> (r: E)
    requires
        basis_uniform(elements@),
        i < elements@.len(),
        j < elements@.len(),
        forall|a: int|
            0 <= a < indices@.len() ==> (#[trigger] indices@[a]) < elements@[0].labels.len(),
        rule_callable::<E, F>(*mat_element),
    ensures
        mel_entry_ok(elements@, indices@, zero, *mat_element, i as int, j as int, r),
{
    let ghost b = elements@;
    let ghost idx = indices@;
    let ei = elements.get(i);
    let ej = elements.get(j);
    let width = ei.states_specific.len();
    proof {
        assert(b[i as int].labels.len() == b[0].labels.len());
        assert(b[j as int].labels.len() == b[0].labels.len());
        assert(b[i as int].values.len() == b[0].labels.len());
        assert(b[j as int].values.len() == b[0].labels.len());
    }
    // spectator selection rule: any disagreement off the action positions
    // forces the entry to zero
    let mut p: usize = 0;
    while p < width
        invariant
            p <= width,
            b == elements@,
            idx == indices@,
            i < b.len(),
            j < b.len(),
            ei@ == b[i as int],
            ej@ == b[j as int],
            width == b[i as int].labels.len(),
            width == b[j as int].labels.len(),
            width == b[i as int].values.len(),
            width == b[j as int].values.len(),
            forall|q: int|
                0 <= q < p && !contains_pos(idx, q) ==> (#[trigger] b[i as int].labels[q])
                    == b[j as int].labels[q] && b[i as int].values[q] == b[j as int].values[q],
        decreases width - p,
    {
        let acts = contains_idx(indices, p);
        if !acts {
            let differs = ei.states_specific[p] != ej.states_specific[p] || ei.values[p]
                != ej.values[p];
            if differs {
                proof {
                    let pp = p as int;
                    assert(0 <= pp < b[i as int].labels.len() && !contains_pos(idx, pp) && !(b[
                        i as int
                    ].labels[pp] == b[j as int].labels[pp] && b[i as int].values[pp] == b[
                        j as int
                    ].values[pp]));
                    assert(!spectators_agree(b, idx, i as int, j as int));
                }
                return zero;
            }
            proof {
                let pp = p as int;
                assert(ei.states_specific@[pp] == ej.states_specific@[pp]);
                assert(ei.values@[pp] == ej.values@[pp]);
                assert(b[i as int].labels[pp] == b[j as int].labels[pp]);
                assert(b[i as int].values[pp] == b[j as int].values[pp]);
            }
        }
        proof {
            assert forall|q: int|
                0 <= q < p as int + 1 && !contains_pos(idx, q) implies (#[trigger] b[
                i as int
            ].labels[q]) == b[j as int].labels[q] && b[i as int].values[q] == b[
                j as int
            ].values[q] by {
                if q == p as int {
                    assert(!acts);
                    assert(b[i as int].labels[q] == b[j as int].labels[q]);
                    assert(b[i as int].values[q] == b[j as int].values[q]);
                } else {
                    assert(0 <= q < p as int);
                    assert(b[i as int].labels[q] == b[j as int].labels[q]);
                    assert(b[i as int].values[q] == b[j as int].values[q]);
                }
            }
        }
        p += 1;
    }
    proof {
        assert(spectators_agree(b, idx, i as int, j as int));
    }
    // assemble the action brakets and apply the rule
    let mut bk: Vec<StateBraket> = Vec::new();
    let mut a: usize = 0;
    while a < indices.len()
        invariant
            a <= indices@.len(),
            b == elements@,
            idx == indices@,
            i < b.len(),
            j < b.len(),
            ei@ == b[i as int],
            ej@ == b[j as int],
            forall|q: int|
                0 <= q < idx.len() ==> (#[trigger] idx[q]) < b[i as int].labels.len() && idx[q] < b[
                    j as int
                ].labels.len() && idx[q] < b[i as int].values.len() && idx[q] < b[
                    j as int
                ].values.len(),
            bk@.len() == a,
            forall|q: int| 0 <= q < a ==> (#[trigger] bk@[q]) == spec_brakets(
                b,
                idx,
                i as int,
                j as int,
            )[q],
            spectators_agree(b, idx, i as int, j as int),
            rule_callable::<E, F>(*mat_element),
        decreases indices@.len() - a,
    {
        let pos = indices[a];
        let braket = StateBraket {
            ket: (ei.states_specific[pos], ei.values[pos]),
            bra: (ej.states_specific[pos], ej.values[pos]),
        };
        bk.push(braket);
        a += 1;
    }
    proof {
        assert(bk@ =~= spec_brakets(b, idx, i as int, j as int));
    }
    let r = mat_element(bk);
    r
}

/// The full row-major table of matrix elements over the basis.
pub fn mel_table<E: Copy, F: Fn(Vec<StateBraket>) -> E>(
    elements: &StatesBasis,
    action_states: &Vec<StateId>,
    zero: E,
    mat_element: F,
) -> (r: Vec<E>)
    requires
        elements@.len() >= 1,
        elements@.len() * elements@.len() <= usize::MAX,
        basis_uniform(elements@),
        forall|a: int|
            0 <= a < action_states@.len() ==> spec_has_kind(
                elements@[0].labels,
                (#[trigger] action_states@[a]).kind,
            ),
        rule_callable::<E, F>(mat_element),
    ensures
        operator_ok(elements@, action_states@, zero, mat_element, r@),
{
    let ghost b = elements@;
    let ghost idx_spec = action_positions(b[0].labels, action_states@);
    let indices = action_indices(elements, action_states);
    let n = elements.len();
    let mut entries: Vec<E> = Vec::new();
    let mut i: usize = 0;
    while i < n
        invariant
            i <= n,
            b == elements@,
            n == b.len(),
            n >= 1,
            n * n <= usize::MAX,
            basis_uniform(b),
            rule_callable::<E, F>(mat_element),
            indices@ == idx_spec,
            forall|a: int| 0 <= a < indices@.len() ==> (#[trigger] indices@[a])
                < b[0].labels.len(),
            entries@.len() == i * n,
            forall|a: int, c: int|
                0 <= a < i && 0 <= c < n ==> mel_entry_ok(
                    b,
                    idx_spec,
                    zero,
                    mat_element,
                    a,
                    c,
                    #[trigger] entries@[a * n + c],
                ),
        decreases n - i,
    {
        let mut j: usize = 0;
        while j < n
            invariant
                i < n,
                j <= n,
                b == elements@,
                n == b.len(),
                n * n <= usize::MAX,
                basis_uniform(b),
                rule_callable::<E, F>(mat_element),
                indices@ == idx_spec,
                forall|a: int| 0 <= a < indices@.len() ==> (#[trigger] indices@[a])
                    < b[0].labels.len(),
                entries@.len() == i * n + j,
                forall|a: int, c: int|
                    0 <= a < i && 0 <= c < n ==> mel_entry_ok(
                        b,
                        idx_spec,
                        zero,
                        mat_element,
                        a,
                        c,
                        #[trigger] entries@[a * n + c],
                    ),
                forall|c: int|
                    0 <= c < j ==> mel_entry_ok(
                        b,
                        idx_spec,
                        zero,
                        mat_element,
                        i as int,
                        c,
                        #[trigger] entries@[i as int * n + c],
                    ),
            decreases n - j,
        {
            proof {
                assert(i * n + j < n * n) by (nonlinear_arith)
                    requires
                        0 <= i < n,
                        0 <= j < n,
                ;
            }
            let e = get_mel(elements, &indices, zero, &mat_element, i, j);
            entries.push(e);
            proof {
                assert forall|a: int, c: int| 0 <= a < i && 0 <= c < n implies mel_entry_ok(
                    b,
                    idx_spec,
                    zero,
                    mat_element,
                    a,
                    c,
                    #[trigger] entries@[a * n + c],
                ) by {
                    assert(a * n + c < i * n + j) by (nonlinear_arith)
                        requires
                            0 <= a < i,
                            0 <= c < n,
                            0 <= j,
                    ;
                }
            }
            j += 1;
        }
        proof {
            assert(i * n + n == (i + 1) * n) by (nonlinear_arith);
        }
        i += 1;
    }
    proof {
        assert(entries@.len() == n * n);
    }
    entries
}

/// Rules that answer equal braket lists with equal values.
pub open spec fn rule_functional<E, F: Fn(Vec<StateBraket>) -> E>(rule: F) -> bool {
    forall|b1: Vec<StateBraket>, b2: Vec<StateBraket>, y1: E, y2: E|
        b1@ == b2@ && #[trigger] call_ensures(rule, (b1,), y1) && #[trigger] call_ensures(
            rule,
            (b2,),
            y2,
        ) ==> y1 == y2
}

/// Backend equivalence: two operator matrices built over the same basis,
/// the same action labels, the same zero and the same functional rule hold
/// exactly the same entries, whatever backends later store them.
pub proof fn lemma_backend_equivalence<E, F: Fn(Vec<StateBraket>) -> E>(
    b: Seq<ElementModel>,
    action: Seq<StateId>,
    zero: E,
    rule: F,
    e1: Seq<E>,
    e2: Seq<E>,
)
    requires
        rule_functional(rule),
        operator_ok(b, action, zero, rule, e1),
        operator_ok(b, action, zero, rule, e2),
    ensures
        e1 == e2,
{
    let n = b.len() as int;
    let idx = action_positions(b[0].labels, action);
    assert forall|k: int| 0 <= k < e1.len() implies e1[k] == e2[k] by {
        assert(n * n > 0);
        assert(n > 0) by (nonlinear_arith)
            requires
                n * n > 0,
                0 <= n,
        ;
        vstd::arithmetic::div_mod::lemma_fundamental_div_mod(k, n);
        vstd::arithmetic::div_mod::lemma_mod_division_less_than_divisor(k, n);
        vstd::arithmetic::div_mod::lemma_div_pos_is_pos(k, n);
        let i = k / n;
        let j = k % n;
        assert(i < n) by (nonlinear_arith)
            requires
                n > 0,
                0 <= i,
                0 <= j < n,
                k == n * i + j,
                k < n * n,
        ;
        assert(k == i * n + j);
        assert(mel_entry_ok(b, idx, zero, rule, i, j, e1[i * n + j]));
        assert(mel_entry_ok(b, idx, zero, rule, i, j, e2[i * n + j]));
        if spectators_agree(b, idx, i, j) {
            let bk1 = choose|bk: Vec<StateBraket>|
                bk@ == spec_brakets(b, idx, i, j) && #[trigger] call_ensures(
                    rule,
                    (bk,),
                    e1[i * n + j],
                );
            let bk2 = choose|bk: Vec<StateBraket>|
                bk@ == spec_brakets(b, idx, i, j) && #[trigger] call_ensures(
                    rule,
                    (bk,),
                    e2[i * n + j],
                );
            assert(bk1@ == bk2@);
        }
    }
    assert(e1 =~= e2);
}

impl<E: Copy> Operator<MatBacked<E>> {
    /// Builds the operator matrix over the given basis, applying the rule to
    /// the axes named by the action labels and enforcing the selection rule
    /// on all other axes.
    pub fn from_matrix_elements<F: Fn(Vec<StateBraket>) -> E>(
        elements: &StatesBasis,
        action_states: Vec<StateId>,
        zero: E,
        mat_element: F,
    ) -> (r: Self)
        requires
            elements@.len() >= 1,
            elements@.len() * elements@.len() <= usize::MAX,
            basis_uniform(elements@),
            forall|a: int|
                0 <= a < action_states@.len() ==> spec_has_kind(
                    elements@[0].labels,
                    (#[trigger] action_states@[a]).kind,
                ),
            rule_callable::<E, F>(mat_element),
        ensures
            r.backed.wf(),
            r.backed.dim() == elements@.len(),
            operator_ok(elements@, action_states@, zero, mat_element, r.backed.model()),
    {
        let n = elements.len();
        let entries = mel_table(elements, &action_states, zero, mat_element);
        Operator { backed: MatBacked::from_entries(n, entries) }
    }

    /// Same as from_matrix_elements.
    pub fn from_mel<F: Fn(Vec<StateBraket>) -> E>(
        elements: &StatesBasis,
        action_states: Vec<StateId>,
        zero: E,
        mat_element: F,
    ) -> (r: Self)
        requires
            elements@.len() >= 1,
            elements@.len() * elements@.len() <= usize::MAX,
            basis_uniform(elements@),
            forall|a: int|
                0 <= a < action_states@.len() ==> spec_has_kind(
                    elements@[0].labels,
                    (#[trigger] action_states@[a]).kind,
                ),
            rule_callable::<E, F>(mat_element),
        ensures
            r.backed.wf(),
            r.backed.dim() == elements@.len(),
            operator_ok(elements@, action_states@, zero, mat_element, r.backed.model()),
    {
        Self::from_matrix_elements(elements, action_states, zero, mat_element)
    }
}

impl<E: Copy + nalgebra::Scalar> Operator<DMatrixBacked<E>> {
    /// Builds the operator matrix over the given basis, applying the rule to
    /// the axes named by the action labels and enforcing the selection rule
    /// on all other axes.
    pub fn from_matrix_elements<F: Fn(Vec<StateBraket>) -> E>(
        elements: &StatesBasis,
        action_states: Vec<StateId>,
        zero: E,
        mat_element: F,
    ) -> (r: Self)
        requires
            elements@.len() >= 1,
            elements@.len() * elements@.len() <= usize::MAX,
            basis_uniform(elements@),
            forall|a: int|
                0 <= a < action_states@.len() ==> spec_has_kind(
                    elements@[0].labels,
                    (#[trigger] action_states@[a]).kind,
                ),
            rule_callable::<E, F>(mat_element),
        ensures
            r.backed.wf(),
            r.backed.dim() == elements@.len(),
            operator_ok(elements@, action_states@, zero, mat_element, r.backed.model()),
    {
        let n = elements.len();
        let entries = mel_table(elements, &action_states, zero, mat_element);
        Operator { backed: DMatrixBacked::from_entries(n, entries) }
    }

    /// Same as from_matrix_elements.
    pub fn from_mel<F: Fn(Vec<StateBraket>) -> E>(
        elements: &StatesBasis,
        action_states: Vec<StateId>,
        zero: E,
        mat_element: F,
    ) -> (r: Self)
        requires
            elements@.len() >= 1,
            elements@.len() * elements@.len() <= usize::MAX,
            basis_uniform(elements@),
            forall|a: int|
                0 <= a < action_states@.len() ==> spec_has_kind(
                    elements@[0].labels,
                    (#[trigger] action_states@[a]).kind,
                ),
            rule_callable::<E, F>(mat_element),
        ensures
            r.backed.wf(),
            r.backed.dim() == elements@.len(),
            operator_ok(elements@, action_states@, zero, mat_element, r.backed.model()),
    {
        Self::from_matrix_elements(elements, action_states, zero, mat_element)
    }
}

impl<E: Copy + nalgebra::Scalar, const N: usize> Operator<SMatrixBacked<E, N>> {
    /// Builds the operator matrix over the given basis in a statically sized
    /// backend, whose dimension must equal the basis size. Larger matrices
    /// belong in a dynamically sized backend.
    pub fn from_matrix_elements<F: Fn(Vec<StateBraket>) -> E>(
        elements: &StatesBasis,
        action_states: Vec<StateId>,
        zero: E,
        mat_element: F,
    ) -> (r: Self)
        requires
            N < 10,
            N == elements@.len(),
            elements@.len() >= 1,
            elements@.len() * elements@.len() <= usize::MAX,
            basis_uniform(elements@),
            forall|a: int|
                0 <= a < action_states@.len() ==> spec_has_kind(
                    elements@[0].labels,
                    (#[trigger] action_states@[a]).kind,
                ),
            rule_callable::<E, F>(mat_element),
        ensures
            r.backed.wf(),
            r.backed.dim() == elements@.len(),
            operator_ok(elements@, action_states@, zero, mat_element, r.backed.model()),
    {
        let entries = mel_table(elements, &action_states, zero, mat_element);
        Operator { backed: SMatrixBacked::from_entries(entries) }
    }

    /// Same as from_matrix_elements.
    pub fn from_mel<F: Fn(Vec<StateBraket>) -> E>(
        elements: &StatesBasis,
        action_states: Vec<StateId>,
        zero: E,
        mat_element: F,
    ) -> (r: Self)
        requires
            N < 10,
            N == elements@.len(),
            elements@.len() >= 1,
            elements@.len() * elements@.len() <= usize::MAX,
            basis_uniform(elements@),
            forall|a: int|
                0 <= a < action_states@.len() ==> spec_has_kind(
                    elements@[0].labels,
                    (#[trigger] action_states@[a]).kind,
                ),
            rule_callable::<E, F>(mat_element),
        ensures
            r.backed.wf(),
            r.backed.dim() == elements@.len(),
            operator_ok(elements@, action_states@, zero, mat_element, r.backed.model()),
    {
        Self::from_matrix_elements(elements, action_states, zero, mat_element)
    }
}

impl<E: Copy> Operator<Array2Backed<E>> {
    /// Builds the operator matrix over the given basis, applying the rule to
    /// the axes named by the action labels and enforcing the selection rule
    /// on all other axes.
    pub fn from_matrix_elements<F: Fn(Vec<StateBraket>) -> E>(
        elements: &StatesBasis,
        action_states: Vec<StateId>,
        zero: E,
        mat_element: F,
    ) -> (r: Self)
        requires
            elements@.len() >= 1,
            elements@.len() * elements@.len() <= usize::MAX,
            basis_uniform(elements@),
            forall|a: int|
                0 <= a < action_states@.len() ==> spec_has_kind(
                    elements@[0].labels,
                    (#[trigger] action_states@[a]).kind,
                ),
            rule_callable::<E, F>(mat_element),
        ensures
            r.backed.wf(),
            r.backed.dim() == elements@.len(),
            operator_ok(elements@, action_states@, zero, mat_element, r.backed.model()),
    {
        let n = elements.len();
        let entries = mel_table(elements, &action_states, zero, mat_element);
        Operator { backed: Array2Backed::from_entries(n, entries) }
    }

    /// Same as from_matrix_elements.
    pub fn from_mel<F: Fn(Vec<StateBraket>) -> E>(
        elements: &StatesBasis,
        action_states: Vec<StateId>,
        zero: E,
        mat_element: F,
    ) -> (r: Self)
        requires
            elements@.len() >= 1,
            elements@.len() * elements@.len() <= usize::MAX,
            basis_uniform(elements@),
            forall|a: int|
                0 <= a < action_states@.len() ==> spec_has_kind(
                    elements@[0].labels,
                    (#[trigger] action_states@[a]).kind,
                ),
            rule_callable::<E, F>(mat_element),
        ensures
            r.backed.wf(),
            r.backed.dim() == elements@.len(),
            operator_ok(elements@, action_states@, zero, mat_element, r.backed.model()),
    {
        Self::from_matrix_elements(elements, action_states, zero, mat_element)
    }
}

} // verus!
