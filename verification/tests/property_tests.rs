use quantum_sim::amplitude::Amplitude;
use quantum_sim::circuit_parser::{
    build_circuit_from_data, QuantumCircuitError, UnparsedCircuit,
};
use quantum_sim::quantum_gate::QuantumGate;
use quantum_sim::quantum_state::QuantumState;
use quantum_sim::simulator::simulate_circuit_handler;

fn amp(a: i64, b: i64, c: i64, d: i64) -> Amplitude {
    Amplitude { a, b, c, d }
}

/// Every output amplitude column has squared-magnitude sum exactly 1: the
/// exact norm is (q, p) with value (q + p * sqrt(2)) / 2^scale, so a unit
/// state has q == 2^scale and p == 0.
fn assert_unit_norm(states: &Vec<QuantumState>) {
    for state in states {
        let (q, p) = state.norm_sq();
        assert_eq!(q, 1i128 << state.scale);
        assert_eq!(p, 0);
    }
}

#[test]
fn norms_stay_unit_through_bell_circuit() {
    let grid = vec![vec!["H", "C_down"], vec!["I", "X"]];
    let states = simulate_circuit_handler(UnparsedCircuit::from(grid)).unwrap();
    assert_unit_norm(&states);
}

#[test]
fn norms_stay_unit_through_ghz_circuit() {
    let grid = vec![
        vec!["H", "C_down", "I"],
        vec!["I", "X", "C_down"],
        vec!["I", "I", "X"],
    ];
    let states = simulate_circuit_handler(UnparsedCircuit::from(grid)).unwrap();
    assert_unit_norm(&states);
}

#[test]
fn norms_stay_unit_with_phase_gates() {
    let grid = vec![vec!["H", "T", "S", "Z", "Y", "H"]];
    let states = simulate_circuit_handler(UnparsedCircuit::from(grid)).unwrap();
    assert_eq!(states.len(), 7);
    assert_unit_norm(&states);
}

#[test]
fn invalid_token_aborts_the_parse() {
    let grid = vec![vec!["H", "Q"]];
    let result = simulate_circuit_handler(UnparsedCircuit::from(grid));
    assert_eq!(result.unwrap_err(), QuantumCircuitError::InvalidGateToken);
}

#[test]
fn control_on_last_row_is_malformed() {
    let grid = vec![vec!["I", "I"], vec!["I", "C_down"]];
    let result = simulate_circuit_handler(UnparsedCircuit::from(grid));
    assert_eq!(result.unwrap_err(), QuantumCircuitError::MalformedMultiQubitGate);
}

#[test]
fn control_over_an_opener_is_malformed() {
    let grid = vec![vec!["C_down"], vec!["Swap"]];
    let result = simulate_circuit_handler(UnparsedCircuit::from(grid));
    assert_eq!(result.unwrap_err(), QuantumCircuitError::MalformedMultiQubitGate);
}

#[test]
fn control_over_an_invalid_token_reports_the_token() {
    let grid = vec![vec!["C_down"], vec!["nope"]];
    let result = simulate_circuit_handler(UnparsedCircuit::from(grid));
    assert_eq!(result.unwrap_err(), QuantumCircuitError::InvalidGateToken);
}

#[test]
fn swap_without_partner_degrades_to_identity() {
    let grid = vec![vec!["Swap"]];
    let states = simulate_circuit_handler(UnparsedCircuit::from(grid)).unwrap();
    let expected = vec![QuantumState::new(&vec![0]), QuantumState::new(&vec![0])];
    assert_eq!(states, expected);
}

#[test]
fn swap_over_an_opener_degrades_to_identity() {
    let grid = vec![vec!["Swap"], vec!["C_down"], vec!["X"]];
    let circuit = build_circuit_from_data(UnparsedCircuit::from(grid)).unwrap();
    assert_eq!(circuit.circuit.len(), 1);
    let step = &circuit.circuit[0];
    assert_eq!(step.gates.len(), 2);
    assert_eq!(step.gates[0].gate, QuantumGate::i_gate());
    assert_eq!(step.gates[0].qubits, vec![0]);
    assert_eq!(step.gates[1].gate, QuantumGate::c_down(QuantumGate::x_gate()));
    assert_eq!(step.gates[1].qubits, vec![1, 2]);
}

#[test]
fn controlled_z_matrix_is_diagonal() {
    let cz = QuantumGate::c_down(QuantumGate::z_gate());
    assert_eq!(cz.size, 2);
    assert_eq!(cz.scale, 0);
    for i in 0..4 {
        for j in 0..4 {
            let expected = if i == j {
                if i == 3 {
                    amp(-1, 0, 0, 0)
                } else {
                    amp(1, 0, 0, 0)
                }
            } else {
                amp(0, 0, 0, 0)
            };
            assert_eq!(cz.matrix[i][j], expected);
        }
    }
}

#[test]
fn toffoli_matrix_swaps_the_last_two_basis_states() {
    let toffoli = QuantumGate::c_down(QuantumGate::c_down(QuantumGate::x_gate()));
    assert_eq!(toffoli.size, 3);
    assert_eq!(toffoli.scale, 0);
    for i in 0..8 {
        for j in 0..8 {
            let expected = if i < 6 {
                if i == j {
                    amp(1, 0, 0, 0)
                } else {
                    amp(0, 0, 0, 0)
                }
            } else if (i == 6 && j == 7) || (i == 7 && j == 6) {
                amp(1, 0, 0, 0)
            } else {
                amp(0, 0, 0, 0)
            };
            assert_eq!(toffoli.matrix[i][j], expected);
        }
    }
}

#[test]
fn t_gate_applies_the_eighth_root_phase() {
    let grid = vec![vec!["H", "T"]];
    let states = simulate_circuit_handler(UnparsedCircuit::from(grid)).unwrap();
    let expected_last = QuantumState { col: vec![amp(1, 0, 0, 0), amp(0, 1, 0, 0)], scale: 1 };
    assert_eq!(states[2], expected_last);
}

#[test]
fn y_gate_maps_zero_to_i_one() {
    let grid = vec![vec!["Y"]];
    let states = simulate_circuit_handler(UnparsedCircuit::from(grid)).unwrap();
    let expected_last = QuantumState { col: vec![amp(0, 0, 0, 0), amp(0, 0, 1, 0)], scale: 0 };
    assert_eq!(states[1], expected_last);
}

#[test]
fn deep_hadamard_chain_reports_amplitude_overflow() {
    let grid = vec![vec!["H"; 64]];
    let result = simulate_circuit_handler(UnparsedCircuit::from(grid));
    assert_eq!(result.unwrap_err(), QuantumCircuitError::AmplitudeOverflow);
}

#[test]
fn output_convention_puts_qubit_zero_in_the_lowest_bit() {
    let grid = vec![vec!["X"], vec!["I"], vec!["I"]];
    let states = simulate_circuit_handler(UnparsedCircuit::from(grid)).unwrap();
    assert_eq!(states[1], QuantumState::new(&vec![0, 0, 1]));
}

#[test]
fn untouched_qubit_factors_out_of_the_full_system() {
    let full_grid = vec![
        vec!["H", "C_down"],
        vec!["I", "X"],
        vec!["T", "I"],
    ];
    let pair_grid = vec![vec!["H", "C_down"], vec!["I", "X"]];
    let lone_grid = vec![vec!["T", "I"]];

    let full = simulate_circuit_handler(UnparsedCircuit::from(full_grid)).unwrap();
    let pair = simulate_circuit_handler(UnparsedCircuit::from(pair_grid)).unwrap();
    let lone = simulate_circuit_handler(UnparsedCircuit::from(lone_grid)).unwrap();

    assert_eq!(full.len(), pair.len());
    assert_eq!(full.len(), lone.len());
    for t in 0..full.len() {
        let tensored = lone[t].kronecker(&pair[t]).unwrap();
        assert_eq!(full[t], tensored);
    }
}

#[test]
fn merging_groups_that_are_not_adjacent_reports_the_violation() {
    let groups = quantum_sim::circuit_parser::EntangledQubitGroupsInTimeStep {
        groups: vec![
            quantum_sim::circuit_parser::EntangledQubitGroup { qubits: vec![0] },
            quantum_sim::circuit_parser::EntangledQubitGroup { qubits: vec![1] },
            quantum_sim::circuit_parser::EntangledQubitGroup { qubits: vec![2] },
        ],
    };
    let g1 = quantum_sim::circuit_parser::EntangledQubitGroup { qubits: vec![0] };
    let g2 = quantum_sim::circuit_parser::EntangledQubitGroup { qubits: vec![2] };
    let result = groups.combine_entangled_groups(g1, g2);
    assert_eq!(result.unwrap_err(), QuantumCircuitError::InternalInvariantViolation);
}

#[test]
fn merging_adjacent_groups_concatenates_them() {
    let groups = quantum_sim::circuit_parser::EntangledQubitGroupsInTimeStep {
        groups: vec![
            quantum_sim::circuit_parser::EntangledQubitGroup { qubits: vec![0] },
            quantum_sim::circuit_parser::EntangledQubitGroup { qubits: vec![1, 2] },
            quantum_sim::circuit_parser::EntangledQubitGroup { qubits: vec![3] },
        ],
    };
    let g1 = quantum_sim::circuit_parser::EntangledQubitGroup { qubits: vec![0] };
    let g2 = quantum_sim::circuit_parser::EntangledQubitGroup { qubits: vec![1, 2] };
    let merged = groups.combine_entangled_groups(g1, g2).unwrap();
    let expected = quantum_sim::circuit_parser::EntangledQubitGroupsInTimeStep {
        groups: vec![
            quantum_sim::circuit_parser::EntangledQubitGroup { qubits: vec![0, 1, 2] },
            quantum_sim::circuit_parser::EntangledQubitGroup { qubits: vec![3] },
        ],
    };
    assert_eq!(merged, expected);
}

#[test]
fn find_gate_returns_the_placement_acting_on_a_qubit() {
    let grid = vec![vec!["H", "C_down"], vec!["I", "X"]];
    let circuit = build_circuit_from_data(UnparsedCircuit::from(grid)).unwrap();
    let step = &circuit.circuit[1];
    let hit = quantum_sim::circuit_parser::find_gate_that_acts_upon_qubit(1, step).unwrap();
    assert_eq!(hit.qubits, vec![0, 1]);
    assert_eq!(hit.gate, QuantumGate::c_down(QuantumGate::x_gate()));
    assert!(quantum_sim::circuit_parser::find_gate_that_acts_upon_qubit(5, step).is_none());
}

#[test]
fn parsing_same_grid_twice_gives_identical_circuits() {
    let make_grid = || vec![vec!["H", "C_down", "Swap"], vec!["T", "X", "Swap"]];
    let first = build_circuit_from_data(UnparsedCircuit::from(make_grid())).unwrap();
    let second = build_circuit_from_data(UnparsedCircuit::from(make_grid())).unwrap();
    assert_eq!(first, second);
}
