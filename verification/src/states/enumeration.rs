use vstd::arithmetic::div_mod::{
    lemma_div_pos_is_pos, lemma_fundamental_div_mod, lemma_fundamental_div_mod_converse,
    lemma_mod_division_less_than_divisor,
};
use vstd::prelude::*;

use super::irreducible_states::StateId;

verus! {

/// One point of the composite basis, as a mathematical value: parallel label
/// and value sequences, one entry per axis, in composite-space order.
#[verifier::ext_equal]
pub ghost struct ElementModel {
    pub labels: Seq<StateId>,
    pub values: Seq<i64>,
}

/// A single axis, seen abstractly: its flattened (label, value) pairs.
/// The axis is well formed when it is non-empty and all its labels share one
/// kind.
pub open spec fn group_wf(g: Seq<(StateId, i64)>) -> bool {
    &&& g.len() >= 1
    &&& forall|k: int| 0 <= k < g.len() ==> (#[trigger] g[k]).0.kind == g[0].0.kind
}

/// The kind tag of an axis.
pub open spec fn group_kind(g: Seq<(StateId, i64)>) -> u32 {
    g[0].0.kind
}

/// A composite space, seen abstractly: the pair sequences of its axes, in
/// insertion order (axis 0 is the fastest varying). Well formed when every
/// axis is and no two axes share a kind.
pub open spec fn space_wf(groups: Seq<Seq<(StateId, i64)>>) -> bool {
    &&& forall|p: int| 0 <= p < groups.len() ==> group_wf(#[trigger] groups[p])
    &&& forall|p: int, q: int|
        0 <= p < q < groups.len() ==> group_kind(groups[p]) != group_kind(groups[q])
}

/// Every axis has at least one pair.
pub open spec fn groups_nonempty(groups: Seq<Seq<(StateId, i64)>>) -> bool {
    forall|p: int| 0 <= p < groups.len() ==> (#[trigger] groups[p]).len() >= 1
}

/// The total number of basis elements: the product of the axis sizes, with
/// the empty product equal to one.
pub open spec fn spec_size(groups: Seq<Seq<(StateId, i64)>>) -> int
    decreases groups.len(),
{
    if groups.len() == 0 {
        1
    } else {
        groups[0].len() * spec_size(groups.drop_first())
    }
}

/// The number of consecutive basis elements over which axis p's component is
/// held fixed: the product of the sizes of the axes before p.
pub open spec fn stride(groups: Seq<Seq<(StateId, i64)>>, p: int) -> int {
    spec_size(groups.take(p))
}

/// The mixed-radix digits of index j, least significant (axis 0) first.
pub open spec fn mixed_digits(groups: Seq<Seq<(StateId, i64)>>, j: int) -> Seq<int>
    decreases groups.len(),
{
    if groups.len() == 0 {
        Seq::empty()
    } else {
        seq![j % (groups[0].len() as int)] + mixed_digits(
            groups.drop_first(),
            j / (groups[0].len() as int),
        )
    }
}

/// The j-th basis element: at each axis p, the pair selected by the p-th
/// mixed-radix digit of j.
pub open spec fn spec_element(groups: Seq<Seq<(StateId, i64)>>, j: int) -> ElementModel {
    ElementModel {
        labels: Seq::new(groups.len(), |p: int| groups[p][mixed_digits(groups, j)[p]].0),
        values: Seq::new(groups.len(), |p: int| groups[p][mixed_digits(groups, j)[p]].1),
    }
}

/// The whole enumerated basis, in odometer order.
pub open spec fn spec_basis(groups: Seq<Seq<(StateId, i64)>>) -> Seq<ElementModel> {
    Seq::new(spec_size(groups) as nat, |j: int| spec_element(groups, j))
}

/// The size of a space of non-empty axes is at least one.
pub proof fn lemma_spec_size_pos(groups: Seq<Seq<(StateId, i64)>>)
    requires
        groups_nonempty(groups),
    ensures
        spec_size(groups) >= 1,
    decreases groups.len(),
{
    if groups.len() > 0 {
        assert(groups_nonempty(groups.drop_first()));
        lemma_spec_size_pos(groups.drop_first());
        let a = groups[0].len() as int;
        let b = spec_size(groups.drop_first());
        assert(a * b >= 1) by (nonlinear_arith)
            requires
                a >= 1,
                b >= 1,
        ;
    }
}

/// The size splits as the product of the sizes of any prefix and the
/// matching suffix.
pub proof fn lemma_spec_size_split(groups: Seq<Seq<(StateId, i64)>>, i: int)
    requires
        0 <= i <= groups.len(),
    ensures
        spec_size(groups) == spec_size(groups.take(i)) * spec_size(groups.skip(i)),
    decreases i,
{
    if i == 0 {
        assert(groups.take(0) =~= Seq::<Seq<(StateId, i64)>>::empty());
        assert(groups.skip(0) =~= groups);
    } else {
        lemma_spec_size_split(groups, i - 1);
        // unfold the suffix at i - 1
        let s = groups.skip(i - 1);
        assert(s.len() > 0);
        assert(s[0] == groups[i - 1]);
        assert(s.drop_first() =~= groups.skip(i));
        assert(spec_size(s) == groups[i - 1].len() * spec_size(groups.skip(i)));
        // extend the prefix by one member
        lemma_spec_size_take_step(groups, i - 1);
        let a = spec_size(groups.take(i - 1));
        let b = groups[i - 1].len() as int;
        let c = spec_size(groups.skip(i));
        assert(a * (b * c) == (a * b) * c) by (nonlinear_arith);
    }
}

/// Extending a prefix by one axis multiplies its size by that axis's size.
pub proof fn lemma_spec_size_take_step(groups: Seq<Seq<(StateId, i64)>>, m: int)
    requires
        0 <= m < groups.len(),
    ensures
        spec_size(groups.take(m + 1)) == spec_size(groups.take(m)) * groups[m].len(),
    decreases m,
{
    if m == 0 {
        assert(groups.take(0) =~= Seq::<Seq<(StateId, i64)>>::empty());
        assert(groups.take(1).len() == 1);
        assert(groups.take(1)[0] == groups[0]);
        assert(groups.take(1).drop_first() =~= Seq::<Seq<(StateId, i64)>>::empty());
    } else {
        let tail = groups.drop_first();
        lemma_spec_size_take_step(tail, m - 1);
        assert(groups.take(m + 1)[0] == groups[0]);
        assert(groups.take(m + 1).drop_first() =~= tail.take(m));
        assert(groups.take(m)[0] == groups[0]);
        assert(groups.take(m).drop_first() =~= tail.take(m - 1));
        assert(tail[m - 1] == groups[m]);
        let a = groups[0].len() as int;
        let b = spec_size(tail.take(m - 1));
        let c = groups[m].len() as int;
        assert(a * (b * c) == (a * b) * c) by (nonlinear_arith);
    }
}

/// Every axis size is bounded by the total size.
pub proof fn lemma_factor_bound(groups: Seq<Seq<(StateId, i64)>>, p: int)
    requires
        groups_nonempty(groups),
        0 <= p < groups.len(),
    ensures
        groups[p].len() <= spec_size(groups),
{
    lemma_spec_size_split(groups, p);
    let s = groups.skip(p);
    assert(s.len() > 0);
    assert(s[0] == groups[p]);
    assert(s.drop_first() =~= groups.skip(p + 1));
    assert(groups_nonempty(groups.take(p)));
    assert(groups_nonempty(groups.skip(p + 1)));
    lemma_spec_size_pos(groups.take(p));
    lemma_spec_size_pos(groups.skip(p + 1));
    let a = spec_size(groups.take(p));
    let b = groups[p].len() as int;
    let c = spec_size(groups.skip(p + 1));
    assert(b <= a * (b * c)) by (nonlinear_arith)
        requires
            a >= 1,
            b >= 1,
            c >= 1,
    ;
}

/// There are as many digits as axes.
pub proof fn lemma_digits_len(groups: Seq<Seq<(StateId, i64)>>, j: int)
    ensures
        mixed_digits(groups, j).len() == groups.len(),
    decreases groups.len(),
{
    if groups.len() > 0 {
        lemma_digits_len(groups.drop_first(), j / (groups[0].len() as int));
    }
}

/// For a non-negative index, every digit is a valid position of its axis.
pub proof fn lemma_digits_bounds(groups: Seq<Seq<(StateId, i64)>>, j: int)
    requires
        groups_nonempty(groups),
        0 <= j,
    ensures
        mixed_digits(groups, j).len() == groups.len(),
        forall|p: int|
            0 <= p < groups.len() ==> 0 <= #[trigger] mixed_digits(groups, j)[p] < groups[p].len(),
    decreases groups.len(),
{
    lemma_digits_len(groups, j);
    if groups.len() > 0 {
        let s0 = groups[0].len() as int;
        lemma_mod_division_less_than_divisor(j, s0);
        lemma_div_pos_is_pos(j, s0);
        assert(groups_nonempty(groups.drop_first()));
        lemma_digits_bounds(groups.drop_first(), j / s0);
        assert forall|p: int| 0 <= p < groups.len() implies 0 <= #[trigger] mixed_digits(
            groups,
            j,
        )[p] < groups[p].len() by {
            if p > 0 {
                assert(mixed_digits(groups, j)[p] == mixed_digits(groups.drop_first(), j / s0)[p
                    - 1]);
                assert(groups.drop_first()[p - 1] == groups[p]);
            }
        }
    }
}

/// Index zero has all digits zero.
pub proof fn lemma_digits_zero(groups: Seq<Seq<(StateId, i64)>>)
    requires
        groups_nonempty(groups),
    ensures
        forall|p: int| 0 <= p < groups.len() ==> #[trigger] mixed_digits(groups, 0)[p] == 0,
    decreases groups.len(),
{
    lemma_digits_len(groups, 0);
    if groups.len() > 0 {
        let s0 = groups[0].len() as int;
        vstd::arithmetic::div_mod::lemma_small_mod(0nat, s0 as nat);
        vstd::arithmetic::div_mod::lemma_div_of0(s0);
        assert(0int % s0 == 0);
        assert(0int / s0 == 0);
        assert(groups_nonempty(groups.drop_first()));
        lemma_digits_zero(groups.drop_first());
        assert forall|p: int| 0 <= p < groups.len() implies #[trigger] mixed_digits(groups, 0)[p]
            == 0 by {
            if p > 0 {
                assert(mixed_digits(groups, 0)[p] == mixed_digits(groups.drop_first(), 0)[p - 1]);
            }
        }
    }
}

/// Stepping from j to j + 1 against divisor s: the remainder either steps up
/// or wraps to zero with a carry into the quotient.
proof fn lemma_step_divmod(j: int, s: int)
    requires
        0 <= j,
        1 <= s,
    ensures
        j % s < s - 1 ==> (j + 1) % s == j % s + 1 && (j + 1) / s == j / s,
        j % s == s - 1 ==> (j + 1) % s == 0 && (j + 1) / s == j / s + 1,
{
    lemma_fundamental_div_mod(j, s);
    lemma_mod_division_less_than_divisor(j, s);
    lemma_div_pos_is_pos(j, s);
    let q = j / s;
    let r = j % s;
    assert(j == s * q + r);
    if r < s - 1 {
        assert(j + 1 == q * s + (r + 1)) by (nonlinear_arith)
            requires
                j == s * q + r,
        ;
        lemma_fundamental_div_mod_converse(j + 1, s, q, r + 1);
    } else {
        assert(j + 1 == (q + 1) * s + 0) by (nonlinear_arith)
            requires
                j == s * q + r,
                r == s - 1,
        ;
        lemma_fundamental_div_mod_converse(j + 1, s, q + 1, 0);
    }
}

/// The odometer carry: if the digits below position c are all maxed and the
/// digit at c is not, then stepping the index resets the digits below c,
/// advances the digit at c, and leaves the rest unchanged.
pub proof fn lemma_digits_increment(groups: Seq<Seq<(StateId, i64)>>, j: int, c: int)
    requires
        groups_nonempty(groups),
        0 <= j,
        0 <= c <= groups.len(),
        forall|p: int|
            0 <= p < c ==> #[trigger] mixed_digits(groups, j)[p] == groups[p].len() - 1,
        c < groups.len() ==> mixed_digits(groups, j)[c] < groups[c].len() - 1,
    ensures
        forall|p: int| 0 <= p < c ==> #[trigger] mixed_digits(groups, j + 1)[p] == 0,
        c < groups.len() ==> mixed_digits(groups, j + 1)[c] == mixed_digits(groups, j)[c] + 1,
        forall|p: int|
            c < p < groups.len() ==> #[trigger] mixed_digits(groups, j + 1)[p] == mixed_digits(
                groups,
                j,
            )[p],
    decreases groups.len(),
{
    lemma_digits_len(groups, j);
    lemma_digits_len(groups, j + 1);
    if groups.len() == 0 {
    } else {
        let s0 = groups[0].len() as int;
        let tail = groups.drop_first();
        lemma_step_divmod(j, s0);
        if c == 0 {
            // the lowest digit steps up and the quotient is unchanged, so all
            // higher digits are digits of the same quotient
            assert(mixed_digits(groups, j)[0] == j % s0);
            assert(j % s0 < s0 - 1);
            assert((j + 1) / s0 == j / s0);
            assert(mixed_digits(groups, j + 1) == seq![(j + 1) % s0] + mixed_digits(tail, j / s0));
            assert(mixed_digits(groups, j + 1)[0] == j % s0 + 1);
            assert forall|p: int| 0 < p < groups.len() implies #[trigger] mixed_digits(
                groups,
                j + 1,
            )[p] == mixed_digits(groups, j)[p] by {
                assert(mixed_digits(groups, j + 1)[p] == mixed_digits(tail, j / s0)[p - 1]);
                assert(mixed_digits(groups, j)[p] == mixed_digits(tail, j / s0)[p - 1]);
            }
        } else {
            assert(mixed_digits(groups, j)[0] == j % s0);
            assert(j % s0 == s0 - 1);
            assert((j + 1) % s0 == 0);
            assert((j + 1) / s0 == j / s0 + 1);
            lemma_div_pos_is_pos(j, s0);
            assert(groups_nonempty(tail));
            assert forall|p: int| 0 <= p < c - 1 implies #[trigger] mixed_digits(tail, j / s0)[p]
                == tail[p].len() - 1 by {
                assert(mixed_digits(groups, j)[p + 1] == mixed_digits(tail, j / s0)[p]);
                assert(tail[p] == groups[p + 1]);
            }
            if c - 1 < tail.len() {
                assert(mixed_digits(groups, j)[c] == mixed_digits(tail, j / s0)[c - 1]);
                assert(tail[c - 1] == groups[c]);
            }
            lemma_digits_increment(tail, j / s0, c - 1);
            assert(mixed_digits(groups, j + 1) == seq![0int] + mixed_digits(tail, j / s0 + 1));
            assert forall|p: int| 0 <= p < c implies #[trigger] mixed_digits(groups, j + 1)[p]
                == 0 by {
                if p > 0 {
                    assert(mixed_digits(groups, j + 1)[p] == mixed_digits(tail, j / s0 + 1)[p - 1]);
                }
            }
            if c < groups.len() {
                assert(mixed_digits(groups, j + 1)[c] == mixed_digits(tail, j / s0 + 1)[c - 1]);
                assert(mixed_digits(groups, j)[c] == mixed_digits(tail, j / s0)[c - 1]);
            }
            assert forall|p: int| c < p < groups.len() implies #[trigger] mixed_digits(
                groups,
                j + 1,
            )[p] == mixed_digits(groups, j)[p] by {
                assert(mixed_digits(groups, j + 1)[p] == mixed_digits(tail, j / s0 + 1)[p - 1]);
                assert(mixed_digits(groups, j)[p] == mixed_digits(tail, j / s0)[p - 1]);
            }
        }
    }
}

/// An index whose digits are all maxed is the last one.
pub proof fn lemma_digits_all_max(groups: Seq<Seq<(StateId, i64)>>, j: int)
    requires
        groups_nonempty(groups),
        0 <= j,
        forall|p: int|
            0 <= p < groups.len() ==> #[trigger] mixed_digits(groups, j)[p] == groups[p].len() - 1,
    ensures
        j >= spec_size(groups) - 1,
    decreases groups.len(),
{
    lemma_digits_len(groups, j);
    if groups.len() == 0 {
    } else {
        let s0 = groups[0].len() as int;
        let tail = groups.drop_first();
        assert(mixed_digits(groups, j)[0] == j % s0);
        assert(groups_nonempty(tail));
        assert forall|p: int| 0 <= p < tail.len() implies #[trigger] mixed_digits(tail, j / s0)[p]
            == tail[p].len() - 1 by {
            assert(mixed_digits(groups, j)[p + 1] == mixed_digits(tail, j / s0)[p]);
            assert(tail[p] == groups[p + 1]);
        }
        lemma_div_pos_is_pos(j, s0);
        lemma_digits_all_max(tail, j / s0);
        lemma_fundamental_div_mod(j, s0);
        let q = j / s0;
        let t = spec_size(tail);
        assert(q >= t - 1);
        assert(j == s0 * q + (s0 - 1));
        assert(s0 * q >= s0 * (t - 1)) by (nonlinear_arith)
            requires
                s0 >= 1,
                q >= t - 1,
        ;
        assert(s0 * (t - 1) + (s0 - 1) == s0 * t - 1) by (nonlinear_arith);
    }
}

/// The j-th element has one entry per axis, and at every position it carries
/// a label of that axis's kind.
pub proof fn lemma_element_shape(groups: Seq<Seq<(StateId, i64)>>, j: int)
    requires
        0 <= j,
        forall|p: int| 0 <= p < groups.len() ==> group_wf(#[trigger] groups[p]),
    ensures
        spec_element(groups, j).labels.len() == groups.len(),
        spec_element(groups, j).values.len() == groups.len(),
        forall|p: int|
            0 <= p < groups.len() ==> #[trigger] spec_element(groups, j).labels[p].kind
                == group_kind(groups[p]),
{
    assert(groups_nonempty(groups));
    lemma_digits_bounds(groups, j);
    assert forall|p: int|
        0 <= p < groups.len() implies #[trigger] spec_element(groups, j).labels[p].kind
        == group_kind(groups[p]) by {
        let d = mixed_digits(groups, j)[p];
        assert(0 <= d < groups[p].len());
        assert(groups[p][d].0.kind == groups[p][0].0.kind);
    }
}

/// The basis has exactly `spec_size` elements: one per mixed-radix index.
pub proof fn lemma_basis_size(groups: Seq<Seq<(StateId, i64)>>)
    requires
        groups_nonempty(groups),
    ensures
        spec_basis(groups).len() == spec_size(groups),
        spec_size(groups) >= 1,
{
    lemma_spec_size_pos(groups);
}

/// No axis repeats a (label, value) pair.
pub open spec fn groups_pairs_distinct(groups: Seq<Seq<(StateId, i64)>>) -> bool {
    forall|p: int, k1: int, k2: int|
        0 <= p < groups.len() && 0 <= k1 < k2 < groups[p].len() ==> #[trigger] groups[p][k1]
            != #[trigger] groups[p][k2]
}

/// When no axis repeats a pair, the enumerated basis elements are pairwise
/// distinct.
pub proof fn lemma_basis_no_duplicates(groups: Seq<Seq<(StateId, i64)>>, i: int, j: int)
    requires
        groups_nonempty(groups),
        groups_pairs_distinct(groups),
        0 <= i < spec_size(groups),
        0 <= j < spec_size(groups),
        i != j,
    ensures
        spec_basis(groups)[i] != spec_basis(groups)[j],
{
    lemma_digits_bounds(groups, i);
    lemma_digits_bounds(groups, j);
    if spec_basis(groups)[i] == spec_basis(groups)[j] {
        let ei = spec_element(groups, i);
        let ej = spec_element(groups, j);
        assert(ei == ej);
        assert(mixed_digits(groups, i) =~= mixed_digits(groups, j)) by {
            assert forall|p: int| 0 <= p < groups.len() implies #[trigger] mixed_digits(
                groups,
                i,
            )[p] == mixed_digits(groups, j)[p] by {
                let di = mixed_digits(groups, i)[p];
                let dj = mixed_digits(groups, j)[p];
                assert(ei.labels[p] == ej.labels[p]);
                assert(ei.values[p] == ej.values[p]);
                assert(groups[p][di].0 == groups[p][dj].0);
                assert(groups[p][di].1 == groups[p][dj].1);
                assert(groups[p][di] == groups[p][dj]);
                if di < dj {
                    assert(groups[p][di] != groups[p][dj]);
                }
                if dj < di {
                    assert(groups[p][dj] != groups[p][di]);
                }
            }
        }
        lemma_digits_injective(groups, i, j);
        assert(false);
    }
}

/// The p-th digit of index j is the quotient of j by axis p's stride, taken
/// modulo axis p's size: axis p steps once every stride(p) indices and wraps
/// after size(p) steps.
pub proof fn lemma_digit_stride(groups: Seq<Seq<(StateId, i64)>>, j: int, p: int)
    requires
        groups_nonempty(groups),
        0 <= j,
        0 <= p < groups.len(),
    ensures
        mixed_digits(groups, j)[p] == (j / stride(groups, p)) % (groups[p].len() as int),
    decreases p,
{
    lemma_digits_len(groups, j);
    let s0 = groups[0].len() as int;
    if p == 0 {
        assert(groups.take(0) =~= Seq::<Seq<(StateId, i64)>>::empty());
        assert(stride(groups, 0) == 1);
        vstd::arithmetic::div_mod::lemma_div_basics(j);
    } else {
        let tail = groups.drop_first();
        assert(groups_nonempty(tail));
        lemma_div_pos_is_pos(j, s0);
        lemma_digit_stride(tail, j / s0, p - 1);
        assert(mixed_digits(groups, j)[p] == mixed_digits(tail, j / s0)[p - 1]);
        assert(tail[p - 1] == groups[p]);
        // the stride of axis p is s0 times the stride within the tail
        assert(groups.take(p)[0] == groups[0]);
        assert(groups.take(p).drop_first() =~= tail.take(p - 1));
        assert(stride(groups, p) == s0 * stride(tail, p - 1));
        assert(groups_nonempty(tail.take(p - 1)));
        lemma_spec_size_pos(tail.take(p - 1));
        vstd::arithmetic::div_mod::lemma_div_denominator(j, s0, stride(tail, p - 1));
    }
}

/// While the index stays short of a multiple of axis p's stride, axis p's
/// component is held fixed; at each multiple it advances cyclically.
pub proof fn lemma_odometer_ordering(groups: Seq<Seq<(StateId, i64)>>, j: int, p: int)
    requires
        groups_nonempty(groups),
        0 <= j,
        0 <= p < groups.len(),
    ensures
        (j + 1) % stride(groups, p) != 0 ==> mixed_digits(groups, j + 1)[p] == mixed_digits(
            groups,
            j,
        )[p],
        (j + 1) % stride(groups, p) == 0 ==> mixed_digits(groups, j + 1)[p] == (mixed_digits(
            groups,
            j,
        )[p] + 1) % (groups[p].len() as int),
{
    let st = stride(groups, p);
    let sp = groups[p].len() as int;
    assert(groups_nonempty(groups.take(p)));
    lemma_spec_size_pos(groups.take(p));
    lemma_digit_stride(groups, j, p);
    lemma_digit_stride(groups, j + 1, p);
    lemma_step_divmod(j, st);
    lemma_mod_division_less_than_divisor(j, st);
    if (j + 1) % st != 0 {
        assert(j % st < st - 1);
        assert((j + 1) / st == j / st);
    } else {
        assert(j % st == st - 1);
        assert((j + 1) / st == j / st + 1);
        lemma_div_pos_is_pos(j, st);
        vstd::arithmetic::div_mod::lemma_add_mod_noop(j / st, 1, sp);
        lemma_mod_division_less_than_divisor(1int, sp);
        assert((j / st + 1) % sp == ((j / st) % sp + 1int % sp) % sp);
        if sp == 1 {
            lemma_mod_division_less_than_divisor((j / st) % sp + 1int % sp, sp);
            lemma_mod_division_less_than_divisor((j / st) % sp + 1, sp);
            lemma_mod_division_less_than_divisor(j / st, sp);
            lemma_mod_division_less_than_divisor(j / st + 1, sp);
        } else {
            vstd::arithmetic::div_mod::lemma_small_mod(1nat, sp as nat);
        }
    }
}

/// Two in-range indices with the same digits are the same index.
pub proof fn lemma_digits_injective(groups: Seq<Seq<(StateId, i64)>>, j1: int, j2: int)
    requires
        groups_nonempty(groups),
        0 <= j1 < spec_size(groups),
        0 <= j2 < spec_size(groups),
        mixed_digits(groups, j1) == mixed_digits(groups, j2),
    ensures
        j1 == j2,
    decreases groups.len(),
{
    if groups.len() == 0 {
        assert(spec_size(groups) == 1);
    } else {
        let s0 = groups[0].len() as int;
        let tail = groups.drop_first();
        let t = spec_size(tail);
        assert(mixed_digits(groups, j1)[0] == j1 % s0);
        assert(mixed_digits(groups, j2)[0] == j2 % s0);
        assert(groups_nonempty(tail));
        lemma_spec_size_pos(tail);
        lemma_fundamental_div_mod(j1, s0);
        lemma_fundamental_div_mod(j2, s0);
        lemma_mod_division_less_than_divisor(j1, s0);
        lemma_mod_division_less_than_divisor(j2, s0);
        assert(spec_size(groups) == s0 * t);
        assert(j1 / s0 < t) by (nonlinear_arith)
            requires
                s0 >= 1,
                t >= 1,
                0 <= j1 < s0 * t,
                j1 == s0 * (j1 / s0) + j1 % s0,
                0 <= j1 % s0 < s0,
        ;
        assert(j2 / s0 < t) by (nonlinear_arith)
            requires
                s0 >= 1,
                t >= 1,
                0 <= j2 < s0 * t,
                j2 == s0 * (j2 / s0) + j2 % s0,
                0 <= j2 % s0 < s0,
        ;
        lemma_div_pos_is_pos(j1, s0);
        lemma_div_pos_is_pos(j2, s0);
        assert(mixed_digits(tail, j1 / s0) =~= mixed_digits(tail, j2 / s0)) by {
            lemma_digits_len(tail, j1 / s0);
            lemma_digits_len(tail, j2 / s0);
            assert forall|p: int| 0 <= p < tail.len() implies #[trigger] mixed_digits(
                tail,
                j1 / s0,
            )[p] == mixed_digits(tail, j2 / s0)[p] by {
                assert(mixed_digits(groups, j1)[p + 1] == mixed_digits(tail, j1 / s0)[p]);
                assert(mixed_digits(groups, j2)[p + 1] == mixed_digits(tail, j2 / s0)[p]);
            }
        }
        lemma_digits_injective(tail, j1 / s0, j2 / s0);
    }
}

} // verus!
