use quantum_sim::amplitude::Amplitude;
use quantum_sim::circuit_parser::UnparsedCircuit;
use quantum_sim::quantum_state::QuantumState;
use quantum_sim::simulator::simulate_circuit_handler;

fn one() -> Amplitude {
    Amplitude { a: 1, b: 0, c: 0, d: 0 }
}

fn zero() -> Amplitude {
    Amplitude { a: 0, b: 0, c: 0, d: 0 }
}

/// The state (|0> + |1>) / sqrt(2): both stored amplitudes 1, one sqrt(2)
/// in the denominator.
fn plus_state() -> QuantumState {
    QuantumState { col: vec![one(), one()], scale: 1 }
}

#[test]
fn test_simulate_not() {
    let incoming_data = vec![vec!["X"]];
    let result = simulate_circuit_handler(UnparsedCircuit::from(incoming_data));

    let expected_result = vec![QuantumState::new(&vec![0]), QuantumState::new(&vec![1])];

    assert_eq!(result.unwrap(), expected_result);
}

#[test]
fn test_simulate_hadamard() {
    let incoming_data = vec![vec!["H"]];
    let result = simulate_circuit_handler(UnparsedCircuit::from(incoming_data));

    let expected_result = vec![QuantumState::new(&vec![0]), plus_state()];

    assert_eq!(result.unwrap(), expected_result);
}

#[test]
fn test_simulate_not_on_index() {
    let incoming_data = vec![vec!["I"], vec!["X"]];
    let result = simulate_circuit_handler(UnparsedCircuit::from(incoming_data));

    let expected_result = vec![QuantumState::new(&vec![0, 0]), QuantumState::new(&vec![1, 0])];

    assert_eq!(result.unwrap(), expected_result);
}

#[test]
fn test_x_gate_on_index() {
    let incoming_data = vec![vec!["X"], vec!["I"]];
    let result = simulate_circuit_handler(UnparsedCircuit::from(incoming_data));

    let expected_result = vec![QuantumState::new(&vec![0, 0]), QuantumState::new(&vec![0, 1])];

    assert_eq!(result.unwrap(), expected_result);
}

#[test]
fn test_cnot_gate_on_index() {
    let incoming_data = vec![vec!["X", "C_down"], vec!["I", "X"]];
    let result = simulate_circuit_handler(UnparsedCircuit::from(incoming_data));

    let expected_result = vec![
        QuantumState::new(&vec![0, 0]),
        QuantumState::new(&vec![0, 1]),
        QuantumState::new(&vec![1, 1]),
    ];

    assert_eq!(result.unwrap(), expected_result);
}

#[test]
fn test_swap_circuit() {
    let incoming_data = vec![vec!["X", "Swap"], vec!["I", "Swap"]];
    let result = simulate_circuit_handler(UnparsedCircuit::from(incoming_data));

    let expected_result = vec![
        QuantumState::new(&vec![0, 0]),
        QuantumState::new(&vec![0, 1]),
        QuantumState::new(&vec![1, 0]),
    ];

    assert_eq!(result.unwrap(), expected_result);
}

#[test]
fn test_entanglement_circuit() {
    let incoming_data = UnparsedCircuit::from(vec![vec!["H", "C_down"], vec!["I", "X"]]);
    let result = simulate_circuit_handler(incoming_data);

    let expected_result = vec![
        QuantumState::new(&vec![0, 0]),
        QuantumState::new(&vec![0]).kronecker(&plus_state()).unwrap(),
        QuantumState { col: vec![one(), zero(), zero(), one()], scale: 1 },
    ];

    assert_eq!(result.unwrap(), expected_result);
}

#[test]
fn test_ghz_state_circuit() {
    let incoming_data = UnparsedCircuit::from(vec![
        vec!["H", "C_down", "I"],
        vec!["I", "X", "C_down"],
        vec!["I", "I", "X"],
    ]);

    let result = simulate_circuit_handler(incoming_data);

    let expected_result = vec![
        QuantumState::new(&vec![0, 0, 0]),
        QuantumState::new(&vec![0, 0]).kronecker(&plus_state()).unwrap(),
        QuantumState::new(&vec![0])
            .kronecker(&QuantumState { col: vec![one(), zero(), zero(), one()], scale: 1 })
            .unwrap(),
        QuantumState {
            col: vec![one(), zero(), zero(), zero(), zero(), zero(), zero(), one()],
            scale: 1,
        },
    ];

    assert_eq!(result.unwrap(), expected_result);
}
