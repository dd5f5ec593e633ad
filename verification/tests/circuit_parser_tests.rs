use quantum_sim::circuit_parser::{
    build_circuit_from_data, entangle_qubits, parse_gates_individually, EntangledQubitGroup,
    EntangledQubitGroupsInTimeStep, ParsedCircuit, UnparsedCircuit,
};
use quantum_sim::quantum_gate::{GatesInTimeStep, QuantumGate, QuantumGateWrapper};

#[test]
fn entangle_testing() {
    let q0 = vec!["H", "C_down", "I"];
    let q1 = vec!["I", "X", "X"];

    let grid = vec![q0, q1];

    let circuit = parse_gates_individually(&UnparsedCircuit::from(grid)).unwrap();
    let entangled_groups = entangle_qubits(&circuit).unwrap();

    let expected_result = vec![
        EntangledQubitGroupsInTimeStep {
            groups: vec![
                EntangledQubitGroup { qubits: vec![0] },
                EntangledQubitGroup { qubits: vec![1] },
            ],
        },
        EntangledQubitGroupsInTimeStep {
            groups: vec![EntangledQubitGroup { qubits: vec![0, 1] }],
        },
        EntangledQubitGroupsInTimeStep {
            groups: vec![EntangledQubitGroup { qubits: vec![0, 1] }],
        },
    ];

    assert_eq!(entangled_groups, expected_result);
}

#[test]
fn testing() {
    let q0 = vec!["H", "C_down", "I"];
    let q1 = vec!["I", "X", "X"];

    let grid = vec![q0, q1];

    let _circuit = build_circuit_from_data(UnparsedCircuit::from(grid)).unwrap();
}

#[test]
fn x_gate_circuit_test() {
    let q0 = vec!["X"];
    let grid = vec![q0];

    let circuit: ParsedCircuit = build_circuit_from_data(UnparsedCircuit::from(grid)).unwrap();

    let expected_result: ParsedCircuit = ParsedCircuit {
        circuit: vec![GatesInTimeStep {
            gates: vec![QuantumGateWrapper { gate: QuantumGate::x_gate(), qubits: vec![0] }],
        }],
    };

    assert_eq!(circuit, expected_result);
}

#[test]
fn preparse_bell_state_circuit_test() {
    let q0 = vec!["H", "C_down"];
    let q1 = vec!["I", "X"];

    let grid = vec![q0, q1];

    let circuit = parse_gates_individually(&UnparsedCircuit::from(grid)).unwrap();

    let expected_result = ParsedCircuit {
        circuit: vec![
            GatesInTimeStep {
                gates: vec![
                    QuantumGateWrapper { gate: QuantumGate::h_gate(), qubits: vec![0] },
                    QuantumGateWrapper { gate: QuantumGate::i_gate(), qubits: vec![1] },
                ],
            },
            GatesInTimeStep {
                gates: vec![QuantumGateWrapper {
                    gate: QuantumGate::c_down(QuantumGate::x_gate()),
                    qubits: vec![0, 1],
                }],
            },
        ],
    };

    assert_eq!(circuit, expected_result);
}

#[test]
fn entangle_bell_state_circuit_test() {
    let q0 = vec!["H", "C_down"];
    let q1 = vec!["I", "X"];

    let grid = vec![q0, q1];

    let circuit = parse_gates_individually(&UnparsedCircuit::from(grid)).unwrap();
    let entangled_groups = entangle_qubits(&circuit).unwrap();
    let expected_result = vec![
        EntangledQubitGroupsInTimeStep {
            groups: vec![
                EntangledQubitGroup { qubits: vec![0] },
                EntangledQubitGroup { qubits: vec![1] },
            ],
        },
        EntangledQubitGroupsInTimeStep {
            groups: vec![EntangledQubitGroup { qubits: vec![0, 1] }],
        },
    ];

    assert_eq!(entangled_groups, expected_result);
}

#[test]
fn parse_bell_state_circuit_test() {
    let q0 = vec!["H", "C_down"];
    let q1 = vec!["I", "X"];

    let grid = vec![q0, q1];

    let circuit = build_circuit_from_data(UnparsedCircuit::from(grid)).unwrap();

    let expected_result = ParsedCircuit {
        circuit: vec![
            GatesInTimeStep {
                gates: vec![
                    QuantumGateWrapper { gate: QuantumGate::h_gate(), qubits: vec![0] },
                    QuantumGateWrapper { gate: QuantumGate::i_gate(), qubits: vec![1] },
                ],
            },
            GatesInTimeStep {
                gates: vec![QuantumGateWrapper {
                    gate: QuantumGate::c_down(QuantumGate::x_gate()),
                    qubits: vec![0, 1],
                }],
            },
        ],
    };

    assert_eq!(circuit, expected_result);
}

#[test]
fn preparse__ghz_state_circuit_test() {
    let grid = vec![
        vec!["H", "C_down", "I"],
        vec!["I", "X", "C_down"],
        vec!["I", "I", "X"],
    ];

    let circuit = parse_gates_individually(&UnparsedCircuit::from(grid)).unwrap();

    let expected_result = ParsedCircuit {
        circuit: vec![
            GatesInTimeStep {
                gates: vec![
                    QuantumGateWrapper { gate: QuantumGate::h_gate(), qubits: vec![0] },
                    QuantumGateWrapper { gate: QuantumGate::i_gate(), qubits: vec![1] },
                    QuantumGateWrapper { gate: QuantumGate::i_gate(), qubits: vec![2] },
                ],
            },
            GatesInTimeStep {
                gates: vec![
                    QuantumGateWrapper {
                        gate: QuantumGate::c_down(QuantumGate::x_gate()),
                        qubits: vec![0, 1],
                    },
                    QuantumGateWrapper { gate: QuantumGate::i_gate(), qubits: vec![2] },
                ],
            },
            GatesInTimeStep {
                gates: vec![
                    QuantumGateWrapper { gate: QuantumGate::i_gate(), qubits: vec![0] },
                    QuantumGateWrapper {
                        gate: QuantumGate::c_down(QuantumGate::x_gate()),
                        qubits: vec![1, 2],
                    },
                ],
            },
        ],
    };

    println!("{:?}", circuit);

    assert_eq!(circuit, expected_result);
}

#[test]
fn entangle__ghz_state_circuit_test() {
    let grid = vec![
        vec!["H", "C_down", "I"],
        vec!["I", "X", "C_down"],
        vec!["I", "I", "X"],
    ];

    let entangled_qubits =
        entangle_qubits(&parse_gates_individually(&UnparsedCircuit::from(grid)).unwrap()).unwrap();
    let expected_result = vec![
        EntangledQubitGroupsInTimeStep {
            groups: vec![
                EntangledQubitGroup { qubits: vec![0] },
                EntangledQubitGroup { qubits: vec![1] },
                EntangledQubitGroup { qubits: vec![2] },
            ],
        },
        EntangledQubitGroupsInTimeStep {
            groups: vec![
                EntangledQubitGroup { qubits: vec![0, 1] },
                EntangledQubitGroup { qubits: vec![2] },
            ],
        },
        EntangledQubitGroupsInTimeStep {
            groups: vec![EntangledQubitGroup { qubits: vec![0, 1, 2] }],
        },
    ];

    println!("{:?}", entangled_qubits);

    assert_eq!(entangled_qubits, expected_result);
}

#[test]
fn parse__ghz_state_circuit_test() {
    let grid = vec![
        vec!["H", "C_down", "I"],
        vec!["I", "X", "C_down"],
        vec!["I", "I", "X"],
    ];

    let circuit = build_circuit_from_data(UnparsedCircuit::from(grid)).unwrap();

    let expected_result = ParsedCircuit {
        circuit: vec![
            GatesInTimeStep {
                gates: vec![
                    QuantumGateWrapper { gate: QuantumGate::h_gate(), qubits: vec![0] },
                    QuantumGateWrapper { gate: QuantumGate::i_gate(), qubits: vec![1] },
                    QuantumGateWrapper { gate: QuantumGate::i_gate(), qubits: vec![2] },
                ],
            },
            GatesInTimeStep {
                gates: vec![
                    QuantumGateWrapper {
                        gate: QuantumGate::c_down(QuantumGate::x_gate()),
                        qubits: vec![0, 1],
                    },
                    QuantumGateWrapper { gate: QuantumGate::i_gate(), qubits: vec![2] },
                ],
            },
            GatesInTimeStep {
                gates: vec![QuantumGateWrapper {
                    gate: QuantumGate::i_gate()
                        .kronecker(&QuantumGate::c_down(QuantumGate::x_gate())),
                    qubits: vec![0, 1, 2],
                }],
            },
        ],
    };

    println!("{:?}", circuit);

    assert_eq!(circuit, expected_result);
}

#[test]
fn parse__swap_gate_test() {
    let grid = vec![vec!["X", "Swap", "H"], vec!["I", "Swap", "Z"]];

    let circuit = build_circuit_from_data(UnparsedCircuit::from(grid)).unwrap();

    let expected_result = ParsedCircuit {
        circuit: vec![
            GatesInTimeStep {
                gates: vec![
                    QuantumGateWrapper { gate: QuantumGate::x_gate(), qubits: vec![0] },
                    QuantumGateWrapper { gate: QuantumGate::i_gate(), qubits: vec![1] },
                ],
            },
            GatesInTimeStep {
                gates: vec![QuantumGateWrapper {
                    gate: QuantumGate::swap_gate(),
                    qubits: vec![0, 1],
                }],
            },
            GatesInTimeStep {
                gates: vec![QuantumGateWrapper {
                    gate: QuantumGate::h_gate().kronecker(&QuantumGate::z_gate()),
                    qubits: vec![0, 1],
                }],
            },
        ],
    };

    println!("{:?}", circuit);

    assert_eq!(circuit, expected_result);
}

#[test]
fn parse__swap_gate__odd_amount() {
    let grid = vec![
        vec!["X", "Swap"],
        vec!["I", "Swap"],
        vec!["H", "Swap"],
        vec!["I", "H"],
    ];

    let circuit = build_circuit_from_data(UnparsedCircuit::from(grid)).unwrap();

    let expected_result = ParsedCircuit {
        circuit: vec![
            GatesInTimeStep {
                gates: vec![
                    QuantumGateWrapper { gate: QuantumGate::x_gate(), qubits: vec![0] },
                    QuantumGateWrapper { gate: QuantumGate::i_gate(), qubits: vec![1] },
                    QuantumGateWrapper { gate: QuantumGate::h_gate(), qubits: vec![2] },
                    QuantumGateWrapper { gate: QuantumGate::i_gate(), qubits: vec![3] },
                ],
            },
            GatesInTimeStep {
                gates: vec![
                    QuantumGateWrapper { gate: QuantumGate::swap_gate(), qubits: vec![0, 1] },
                    QuantumGateWrapper { gate: QuantumGate::i_gate(), qubits: vec![2] },
                    QuantumGateWrapper { gate: QuantumGate::h_gate(), qubits: vec![3] },
                ],
            },
        ],
    };

    println!("{:?}", circuit);

    assert_eq!(circuit, expected_result);
}
