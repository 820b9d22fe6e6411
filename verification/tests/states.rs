use quantum::states::irreducible_states::{IrreducibleStates, StateId};
use quantum::states::state_type::StateType;
use quantum::states::sum_states::SumStates;
use quantum::states::{States, StatesBasis, StatesElement, StatesError};

// the label kinds used throughout: electron spin, nuclear spin, vibrational
fn electron_spin(double_spin: i64) -> StateId {
    StateId { kind: 0, payload: double_spin }
}

fn nuclear_spin(double_spin: i64) -> StateId {
    StateId { kind: 1, payload: double_spin }
}

fn vibrational() -> StateId {
    StateId { kind: 2, payload: 0 }
}

fn three_group_states() -> States {
    let mut states = States::default();

    let triplet = IrreducibleStates::new(electron_spin(2), vec![-2, 0, 2]);
    let singlet = IrreducibleStates::new(electron_spin(0), vec![0]);
    let e_state = StateType::Sum(vec![triplet, singlet]);
    states.push_state(e_state).unwrap();

    let nuclear = StateType::Irreducible(IrreducibleStates::new(nuclear_spin(1), vec![-1, 1]));
    states.push_state(nuclear).unwrap();

    let vib = StateType::Irreducible(IrreducibleStates::new(vibrational(), vec![-1, -2]));
    states.push_state(vib).unwrap();

    states
}

fn group_pairs(group: &StateType) -> Vec<(StateId, i64)> {
    let mut it = group.iter();
    let mut pairs = Vec::new();
    while let Some(pair) = it.next() {
        pairs.push(pair);
    }
    pairs
}

#[test]
fn states_creation_v1() {
    // values carried by a dedicated value enumeration in spirit: spins and a
    // vibrational quantum number, here both held as plain integers
    let spin = |v: i64| v;
    let vib_value = |v: i64| v;

    let mut states = States::default();

    let triplet_elements = vec![spin(-2), spin(0), spin(2)];
    let triplet = IrreducibleStates::new(electron_spin(2), triplet_elements);
    let singlet = IrreducibleStates::new(electron_spin(0), vec![spin(0)]);

    let e_state = StateType::Sum(vec![triplet, singlet]);
    assert!(states.push_state(e_state).is_ok());

    let nuclear_elements = vec![spin(-1), spin(1)];
    let nuclear = StateType::Irreducible(IrreducibleStates::new(nuclear_spin(1), nuclear_elements));
    assert!(states.push_state(nuclear).is_ok());

    let vib_elements = vec![vib_value(-1), vib_value(-2)];
    let vib = StateType::Irreducible(IrreducibleStates::new(vibrational(), vib_elements));
    assert!(states.push_state(vib).is_ok());

    // the stored structure: a sum of the triplet and singlet, then the two
    // irreducible axes, with exactly the inserted labels and values
    assert_eq!(3, states.group_count());
    assert!(matches!(states.get_group(0), StateType::Sum(v) if v.len() == 2));
    assert!(matches!(states.get_group(1), StateType::Irreducible(_)));
    assert!(matches!(states.get_group(2), StateType::Irreducible(_)));

    let expected0 = vec![
        (electron_spin(2), -2),
        (electron_spin(2), 0),
        (electron_spin(2), 2),
        (electron_spin(0), 0),
    ];
    let expected1 = vec![(nuclear_spin(1), -1), (nuclear_spin(1), 1)];
    let expected2 = vec![(vibrational(), -1), (vibrational(), -2)];
    assert_eq!(expected0, group_pairs(states.get_group(0)));
    assert_eq!(expected1, group_pairs(states.get_group(1)));
    assert_eq!(expected2, group_pairs(states.get_group(2)));
}

#[test]
fn states_creation_v2() {
    let mut states = States::default();

    let triplet = IrreducibleStates::new(electron_spin(2), vec![-2, 0, 2]);
    let singlet = IrreducibleStates::new(electron_spin(0), vec![0]);

    let e_state = StateType::Sum(vec![triplet, singlet]);
    assert!(states.push_state(e_state).is_ok());

    let nuclear = StateType::Irreducible(IrreducibleStates::new(nuclear_spin(1), vec![-1, 1]));
    assert!(states.push_state(nuclear).is_ok());

    let vib = StateType::Irreducible(IrreducibleStates::new(vibrational(), vec![-1, -2]));
    assert!(states.push_state(vib).is_ok());

    assert_eq!(3, states.group_count());
    assert_eq!(4, states.get_group(0).size());
    assert_eq!(2, states.get_group(1).size());
    assert_eq!(2, states.get_group(2).size());

    let expected0 = vec![
        (electron_spin(2), -2),
        (electron_spin(2), 0),
        (electron_spin(2), 2),
        (electron_spin(0), 0),
    ];
    let expected1 = vec![(nuclear_spin(1), -1), (nuclear_spin(1), 1)];
    let expected2 = vec![(vibrational(), -1), (vibrational(), -2)];
    assert_eq!(expected0, group_pairs(states.get_group(0)));
    assert_eq!(expected1, group_pairs(states.get_group(1)));
    assert_eq!(expected2, group_pairs(states.get_group(2)));
}

#[test]
fn state_type_iteration() {
    let triplet = IrreducibleStates::new(electron_spin(2), vec![-2, 0, 2]);
    let singlet = IrreducibleStates::new(electron_spin(0), vec![0]);

    let e_state = StateType::Sum(vec![triplet, singlet]);

    let mut e_iter = e_state.iter();
    assert_eq!(Some((electron_spin(2), -2)), e_iter.next());
    assert_eq!(Some((electron_spin(2), 0)), e_iter.next());
    assert_eq!(Some((electron_spin(2), 2)), e_iter.next());
    assert_eq!(Some((electron_spin(0), 0)), e_iter.next());
    assert_eq!(None, e_iter.next());

    let nuclear = StateType::Irreducible(IrreducibleStates::new(nuclear_spin(1), vec![-1, 1]));
    let mut n_iter = nuclear.iter();
    assert_eq!(Some((nuclear_spin(1), -1)), n_iter.next());
    assert_eq!(Some((nuclear_spin(1), 1)), n_iter.next());
    assert_eq!(None, n_iter.next());
}

fn element(labels: Vec<StateId>, values: Vec<i64>) -> StatesElement {
    StatesElement { states_specific: labels, values }
}

fn expected_sixteen() -> Vec<StatesElement> {
    let e2 = electron_spin(2);
    let e0 = electron_spin(0);
    let n1 = nuclear_spin(1);
    let vb = vibrational();
    vec![
        element(vec![e2, n1, vb], vec![-2, -1, -1]),
        element(vec![e2, n1, vb], vec![0, -1, -1]),
        element(vec![e2, n1, vb], vec![2, -1, -1]),
        element(vec![e0, n1, vb], vec![0, -1, -1]),
        element(vec![e2, n1, vb], vec![-2, 1, -1]),
        element(vec![e2, n1, vb], vec![0, 1, -1]),
        element(vec![e2, n1, vb], vec![2, 1, -1]),
        element(vec![e0, n1, vb], vec![0, 1, -1]),
        element(vec![e2, n1, vb], vec![-2, -1, -2]),
        element(vec![e2, n1, vb], vec![0, -1, -2]),
        element(vec![e2, n1, vb], vec![2, -1, -2]),
        element(vec![e0, n1, vb], vec![0, -1, -2]),
        element(vec![e2, n1, vb], vec![-2, 1, -2]),
        element(vec![e2, n1, vb], vec![0, 1, -2]),
        element(vec![e2, n1, vb], vec![2, 1, -2]),
        element(vec![e0, n1, vb], vec![0, 1, -2]),
    ]
}

#[test]
fn state_iteration() {
    let states = three_group_states();
    let expected = expected_sixteen();

    let mut it = states.iter_elements();
    for exp in expected.iter() {
        let got = it.next().expect("enumeration ended early");
        assert_eq!(*exp, got);
    }
    assert!(it.next().is_none());
}

#[test]
fn state_filtering() {
    let states = three_group_states();

    let mut kept = Vec::new();
    let mut it = states.iter_elements();
    while let Some(el) = it.next() {
        if el.states_specific[0] == electron_spin(0) {
            kept.push(el);
        }
    }
    let filtered = StatesBasis::from_elements(kept);

    let e0 = electron_spin(0);
    let n1 = nuclear_spin(1);
    let vb = vibrational();
    let expected = vec![
        element(vec![e0, n1, vb], vec![0, -1, -1]),
        element(vec![e0, n1, vb], vec![0, 1, -1]),
        element(vec![e0, n1, vb], vec![0, -1, -2]),
        element(vec![e0, n1, vb], vec![0, 1, -2]),
    ];

    assert_eq!(expected.len(), filtered.len());
    for (i, exp) in expected.iter().enumerate() {
        assert_eq!(exp, filtered.get(i));
    }
}

#[test]
fn duplicate_kind_is_rejected() {
    let mut states = three_group_states();

    let second_electron_spin =
        IrreducibleStates::new(electron_spin(1), vec![-1, 1]);
    let result = states.push_state(StateType::Irreducible(second_electron_spin));
    assert_eq!(Err(StatesError::DuplicateKind), result);

    // the rejected push leaves the space as it was
    assert_eq!(3, states.group_count());
    assert_eq!(16, states.size());
}

#[test]
fn malformed_states_are_rejected() {
    let mut states = States::default();

    assert_eq!(
        Err(StatesError::EmptySum),
        states.push_state(StateType::Sum(vec![]))
    );

    let empty_member = IrreducibleStates { state_specific: electron_spin(0), basis: vec![] };
    assert_eq!(
        Err(StatesError::EmptyBasis),
        states.push_state(StateType::Sum(vec![empty_member]))
    );

    let empty_irreducible = IrreducibleStates { state_specific: electron_spin(0), basis: vec![] };
    assert_eq!(
        Err(StatesError::EmptyBasis),
        states.push_state(StateType::Irreducible(empty_irreducible))
    );

    let a = IrreducibleStates::new(electron_spin(0), vec![0]);
    let b = IrreducibleStates::new(nuclear_spin(1), vec![-1, 1]);
    assert_eq!(
        Err(StatesError::MixedKinds),
        states.push_state(StateType::Sum(vec![a, b]))
    );

    assert_eq!(0, states.group_count());
}

#[test]
fn size_is_the_product_of_group_sizes() {
    let states = three_group_states();

    assert_eq!(4, states.get_group(0).size());
    assert_eq!(2, states.get_group(1).size());
    assert_eq!(2, states.get_group(2).size());
    assert_eq!(16, states.size());

    let basis = states.get_basis();
    assert_eq!(states.size(), basis.len());
}

#[test]
fn enumerated_elements_are_pairwise_distinct() {
    let states = three_group_states();
    let basis = states.get_basis();

    for i in 0..basis.len() {
        for j in 0..basis.len() {
            if i != j {
                assert!(basis.get(i) != basis.get(j));
            }
        }
    }
}

#[test]
fn odometer_components_change_at_their_strides() {
    let states = three_group_states();
    let basis = states.get_basis();

    // strides: group 0 changes every step, group 1 every 4 steps, group 2
    // every 8 steps
    let strides = [1usize, 4, 8];
    for j in 0..basis.len() - 1 {
        for (p, stride) in strides.iter().enumerate() {
            let here = (basis.get(j).states_specific[p], basis.get(j).values[p]);
            let next = (basis.get(j + 1).states_specific[p], basis.get(j + 1).values[p]);
            if (j + 1) % stride != 0 {
                assert_eq!(here, next);
            }
        }
    }
    // group 0 runs through its four pairs over the first four steps
    assert_eq!(basis.get(0).values[0], -2);
    assert_eq!(basis.get(1).values[0], 0);
    assert_eq!(basis.get(2).values[0], 2);
    assert_eq!(basis.get(3).values[0], 0);
}

#[test]
fn sum_states_counts_members() {
    let triplet = IrreducibleStates::new(electron_spin(2), vec![-2, 0, 2]);
    let singlet = IrreducibleStates::new(electron_spin(0), vec![0]);
    let sum = SumStates(vec![triplet, singlet]);
    assert_eq!(2, sum.size());
}

#[test]
fn irreducible_states_size_counts_values() {
    let triplet = IrreducibleStates::new(electron_spin(2), vec![-2, 0, 2]);
    assert_eq!(3, triplet.size());
    assert_eq!(electron_spin(2), triplet.state_specific);
}
