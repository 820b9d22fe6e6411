use quantum::states::backends::{Array2Backed, DMatrixBacked, MatBacked, SMatrixBacked};
use quantum::states::braket::StateBraket;
use quantum::states::irreducible_states::{IrreducibleStates, StateId};
use quantum::states::operator::{action_indices, mel_table, Operator};
use quantum::states::state_type::StateType;
use quantum::states::{States, StatesBasis};

fn electron_spin(double_spin: i64) -> StateId {
    StateId { kind: 0, payload: double_spin }
}

fn vibrational() -> StateId {
    StateId { kind: 1, payload: 0 }
}

fn prepare_states() -> States {
    let mut states = States::default();

    let triplet_elements = vec![-2, 0, 2];
    let triplet = IrreducibleStates::new(electron_spin(2), triplet_elements);
    let singlet = IrreducibleStates::new(electron_spin(0), vec![0]);

    let e_state = StateType::Sum(vec![triplet, singlet]);
    states.push_state(e_state).unwrap();

    let vib_elements = vec![-1, -2];
    let vib = StateType::Irreducible(IrreducibleStates::new(vibrational(), vib_elements));
    states.push_state(vib).unwrap();

    states
}

fn spin_coupling(el_state: &StateBraket, vib: &StateBraket) -> f64 {
    if vib.ket != vib.bra {
        let ket_spin = el_state.ket.0.payload;
        let bra_spin = el_state.bra.0.payload;
        let ket_spin_z = el_state.ket.1;
        let bra_spin_z = el_state.bra.1;

        (ket_spin * 1000 + bra_spin * 100 + ket_spin_z * 10 + bra_spin_z) as f64
    } else {
        0.0
    }
}

#[test]
fn test_faer_operator() {
    let elements = prepare_states().get_basis();

    let operator = Operator::<MatBacked<f64>>::from_mel(
        &elements,
        vec![electron_spin(0)],
        0.0,
        |brakets: Vec<StateBraket>| {
            let ket = brakets[0].ket;
            ket.1 as f64
        },
    );

    let expected = [
        [-2.0, -2.0, -2.0, -2.0, 0.0, 0.0, 0.0, 0.0],
        [0.0, 0.0, 0.0, 0.0, 0.0, 0.0, 0.0, 0.0],
        [2.0, 2.0, 2.0, 2.0, 0.0, 0.0, 0.0, 0.0],
        [0.0, 0.0, 0.0, 0.0, 0.0, 0.0, 0.0, 0.0],
        [0.0, 0.0, 0.0, 0.0, -2.0, -2.0, -2.0, -2.0],
        [0.0, 0.0, 0.0, 0.0, 0.0, 0.0, 0.0, 0.0],
        [0.0, 0.0, 0.0, 0.0, 2.0, 2.0, 2.0, 2.0],
        [0.0, 0.0, 0.0, 0.0, 0.0, 0.0, 0.0, 0.0],
    ];

    assert_eq!(8, operator.backed.size());
    for i in 0..8 {
        for j in 0..8 {
            assert_eq!(expected[i][j], operator.backed.entry(i, j).unwrap());
        }
    }

    let operator = Operator::<MatBacked<f64>>::from_mel(
        &elements,
        vec![electron_spin(0)],
        0.0,
        |brakets: Vec<StateBraket>| {
            let bra = brakets[0].bra;
            bra.1 as f64
        },
    );

    let expected = [
        [-2.0, 0.0, 2.0, 0.0, 0.0, 0.0, 0.0, 0.0],
        [-2.0, 0.0, 2.0, 0.0, 0.0, 0.0, 0.0, 0.0],
        [-2.0, 0.0, 2.0, 0.0, 0.0, 0.0, 0.0, 0.0],
        [-2.0, 0.0, 2.0, 0.0, 0.0, 0.0, 0.0, 0.0],
        [0.0, 0.0, 0.0, 0.0, -2.0, 0.0, 2.0, 0.0],
        [0.0, 0.0, 0.0, 0.0, -2.0, 0.0, 2.0, 0.0],
        [0.0, 0.0, 0.0, 0.0, -2.0, 0.0, 2.0, 0.0],
        [0.0, 0.0, 0.0, 0.0, -2.0, 0.0, 2.0, 0.0],
    ];

    for i in 0..8 {
        for j in 0..8 {
            assert_eq!(expected[i][j], operator.backed.entry(i, j).unwrap());
        }
    }

    let operator = Operator::<MatBacked<f64>>::from_mel(
        &elements,
        vec![electron_spin(0), vibrational()],
        0.0,
        |brakets: Vec<StateBraket>| spin_coupling(&brakets[0], &brakets[1]),
    );

    let expected = [
        [0.0, 0.0, 0.0, 0.0, 2178.0, 2180.0, 2182.0, 1980.0],
        [0.0, 0.0, 0.0, 0.0, 2198.0, 2200.0, 2202.0, 2000.0],
        [0.0, 0.0, 0.0, 0.0, 2218.0, 2220.0, 2222.0, 2020.0],
        [0.0, 0.0, 0.0, 0.0, 198.0, 200.0, 202.0, 0.0],
        [2178.0, 2180.0, 2182.0, 1980.0, 0.0, 0.0, 0.0, 0.0],
        [2198.0, 2200.0, 2202.0, 2000.0, 0.0, 0.0, 0.0, 0.0],
        [2218.0, 2220.0, 2222.0, 2020.0, 0.0, 0.0, 0.0, 0.0],
        [198.0, 200.0, 202.0, 0.0, 0.0, 0.0, 0.0, 0.0],
    ];

    for i in 0..8 {
        for j in 0..8 {
            assert_eq!(expected[i][j], operator.backed.entry(i, j).unwrap());
        }
    }
}

#[test]
fn test_operators_different_backed() {
    let elements = prepare_states().get_basis();
    let action = vec![electron_spin(0), vibrational()];

    let rule = |brakets: Vec<StateBraket>| spin_coupling(&brakets[0], &brakets[1]);

    let operator_faer =
        Operator::<MatBacked<f64>>::from_mel(&elements, action.clone(), 0.0, rule);
    let operator_d_matrix =
        Operator::<DMatrixBacked<f64>>::from_mel(&elements, action.clone(), 0.0, rule);
    let operator_s_matrix =
        Operator::<SMatrixBacked<f64, 8>>::from_mel(&elements, action.clone(), 0.0, rule);
    let operator_ndarray =
        Operator::<Array2Backed<f64>>::from_mel(&elements, action.clone(), 0.0, rule);

    assert_eq!(8, operator_faer.backed.size());
    assert_eq!(8, operator_d_matrix.backed.size());
    assert_eq!(8, operator_s_matrix.backed.size());
    assert_eq!(8, operator_ndarray.backed.size());

    for i in 0..8 {
        for j in 0..8 {
            let reference = operator_faer.backed.entry(i, j).unwrap();
            assert_eq!(reference, operator_d_matrix.backed.entry(i, j).unwrap());
            assert_eq!(reference, operator_s_matrix.backed.entry(i, j).unwrap());
            assert_eq!(reference, operator_ndarray.backed.entry(i, j).unwrap());
        }
    }
}

#[test]
fn selection_rule_zeroes_spectator_changes() {
    let elements = prepare_states().get_basis();

    // the operator acts on the electron spin alone, so the vibrational axis
    // is a spectator: any pair of elements that differ in it must give zero
    let operator = Operator::<Array2Backed<f64>>::from_mel(
        &elements,
        vec![electron_spin(0)],
        0.0,
        |_brakets: Vec<StateBraket>| 7.0,
    );

    for i in 0..8 {
        for j in 0..8 {
            let vib_i = elements.get(i).values[1];
            let vib_j = elements.get(j).values[1];
            let entry = operator.backed.entry(i, j).unwrap();
            if vib_i != vib_j {
                assert_eq!(0.0, entry);
            } else {
                // spectators agree: the rule's value passes through unchanged
                assert_eq!(7.0, entry);
            }
        }
    }
}

#[test]
fn action_indices_find_kind_positions() {
    let elements = prepare_states().get_basis();

    let indices = action_indices(&elements, &vec![vibrational(), electron_spin(0)]);
    assert_eq!(vec![1usize, 0], indices);

    // a payload difference does not matter: kinds alone select the axis
    let indices = action_indices(&elements, &vec![electron_spin(2)]);
    assert_eq!(vec![0usize], indices);
}

#[test]
fn mel_table_is_row_major() {
    let elements = prepare_states().get_basis();

    let entries = mel_table(
        &elements,
        &vec![electron_spin(0)],
        0.0,
        |brakets: Vec<StateBraket>| brakets[0].ket.1 as f64,
    );

    assert_eq!(64, entries.len());
    // the ket-value rule puts element 0's spin value all across row 0 of the
    // vibrational block
    assert_eq!(-2.0, entries[0]);
    assert_eq!(-2.0, entries[3]);
    assert_eq!(0.0, entries[4]);

    let operator = Operator::<MatBacked<f64>>::from_mel(
        &elements,
        vec![electron_spin(0)],
        0.0,
        |brakets: Vec<StateBraket>| brakets[0].ket.1 as f64,
    );
    for i in 0..8 {
        for j in 0..8 {
            assert_eq!(entries[i * 8 + j], operator.backed.entry(i, j).unwrap());
        }
    }
}

#[test]
fn operator_over_filtered_basis() {
    let full = prepare_states().get_basis();

    // keep only the singlet elements, as a caller-assembled basis
    let mut kept = Vec::new();
    for i in 0..full.len() {
        if full.get(i).states_specific[0] == electron_spin(0) {
            kept.push(full.get(i).clone());
        }
    }
    let filtered = StatesBasis::from_elements(kept);
    assert_eq!(2, filtered.len());

    let operator = Operator::<DMatrixBacked<f64>>::from_mel(
        &filtered,
        vec![vibrational()],
        0.0,
        |brakets: Vec<StateBraket>| brakets[0].ket.1 as f64,
    );

    for i in 0..2 {
        for j in 0..2 {
            let expected = filtered.get(i).values[1] as f64;
            assert_eq!(expected, operator.backed.entry(i, j).unwrap());
        }
    }
}
