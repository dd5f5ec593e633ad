use vstd::prelude::*;

use crate::amplitude::Amplitude;
use crate::quantum_gate::{
    cdown_mat, gate_wf, mat_hadamard, mat_identity, mat_pauli_x, mat_pauli_y, mat_pauli_z,
    mat_phase_s, mat_phase_t, mat_swap, GateView, GatesInTimeStep, PlacementView, QuantumGate,
    QuantumGateWrapper, MAX_QUBITS,
};

verus! {

/// Largest number of time steps a grid may carry; keeps the running
/// denominator exponent far from the integer range.
pub const MAX_STEPS: usize = 1000000000;

/// Typed outcome of a failed request: the two parse errors abort the whole
/// parse with no partial result; `AmplitudeOverflow` reports an exact
/// amplitude that left the representable coordinate range during evolution;
/// `InternalInvariantViolation` is the defensive outcome of a bookkeeping
/// check that holds on every well-formed parsed circuit.
#[derive(Clone, Copy, Debug, PartialEq, Eq, Structural)]
pub enum QuantumCircuitError {
    InvalidGateToken,
    MalformedMultiQubitGate,
    AmplitudeOverflow,
    InternalInvariantViolation,
}

/// The multi-qubit tokens: an opener that takes the next row's gate as its
/// target, and the swap half that pairs with a second swap half below it.
#[allow(non_camel_case_types)]
#[derive(Clone, Copy, Debug, PartialEq, Eq, Structural)]
pub enum PartOfMultiGate {
    control_down,
    swap,
}

/// What one token resolves to: a complete 1-qubit gate, or part of a
/// multi-qubit gate to be matched with the row below.
#[derive(Debug)]
pub enum ParsedGateToken {
    Single(QuantumGate),
    PartOfMulti(PartOfMultiGate),
}

/// The caller-supplied token grid: rows are qubits, columns are time steps.
#[derive(Clone, Debug)]
pub struct UnparsedCircuit {
    pub circuit: Vec<Vec<String>>,
}

impl View for UnparsedCircuit {
    type V = Seq<Seq<Seq<char>>>;

    open spec fn view(&self) -> Seq<Seq<Seq<char>>> {
        Seq::new(
            self.circuit@.len(),
            |i: int| Seq::new(self.circuit@[i]@.len(), |j: int| self.circuit@[i]@[j]@),
        )
    }
}

impl From<Vec<Vec<&str>>> for UnparsedCircuit {
    fn from(circuit: Vec<Vec<&str>>) -> (r: Self)
        ensures
            r@.len() == circuit@.len(),
            forall|i: int|
                0 <= i < circuit@.len() ==> (#[trigger] r@[i]).len() == circuit@[i]@.len(),
            forall|i: int, j: int|
                0 <= i < circuit@.len() && 0 <= j < circuit@[i]@.len() ==> #[trigger] r@[i][j]
                    == circuit@[i]@[j]@,
    {
        let mut new_circuit: Vec<Vec<String>> = Vec::new();
        let mut i: usize = 0;
        while i < circuit.len()
            invariant
                i <= circuit@.len(),
                new_circuit@.len() == i,
                forall|k: int|
                    0 <= k < i ==> (#[trigger] new_circuit@[k])@.len() == circuit@[k]@.len(),
                forall|k: int, l: int|
                    0 <= k < i && 0 <= l < circuit@[k]@.len() ==> (
                    #[trigger] new_circuit@[k]@[l])@ == circuit@[k]@[l]@,
            decreases circuit@.len() - i,
        {
            let row = &circuit[i];
            let mut new_row: Vec<String> = Vec::new();
            let mut j: usize = 0;
            while j < row.len()
                invariant
                    0 <= i < circuit@.len(),
                    row@ == circuit@[i as int]@,
                    j <= row@.len(),
                    new_row@.len() == j,
                    forall|l: int|
                        0 <= l < j ==> (#[trigger] new_row@[l])@ == circuit@[i as int]@[l]@,
                decreases row@.len() - j,
            {
                new_row.push(row[j].to_owned());
                j = j + 1;
            }
            new_circuit.push(new_row);
            i = i + 1;
        }
        UnparsedCircuit { circuit: new_circuit }
    }
}

impl vstd::std_specs::convert::FromSpecImpl<Vec<Vec<&str>>> for UnparsedCircuit {
    open spec fn obeys_from_spec() -> bool {
        false
    }

    open spec fn from_spec(v: Vec<Vec<&str>>) -> Self {
        arbitrary()
    }
}

/// The grid invariant the caller establishes upstream: at least one qubit row
/// within the width cap, and equal-length nonempty rows within the step cap.
pub open spec fn grid_wf(g: Seq<Seq<Seq<char>>>) -> bool {
    &&& 1 <= g.len() <= MAX_QUBITS
    &&& 1 <= g[0].len() <= MAX_STEPS
    &&& forall|q: int| 0 <= q < g.len() ==> (#[trigger] g[q]).len() == g[0].len()
}

/// One column of the grid: the tokens of every qubit row at one time step.
pub open spec fn grid_column(g: Seq<Seq<Seq<char>>>, step: int) -> Seq<Seq<char>> {
    Seq::new(g.len(), |q: int| g[q][step])
}

pub open spec fn token_is_single(t: Seq<char>) -> bool {
    ||| t == "I"@
    ||| t == "H"@
    ||| t == "X"@
    ||| t == "Y"@
    ||| t == "Z"@
    ||| t == "T"@
    ||| t == "S"@
}

pub open spec fn token_valid(t: Seq<char>) -> bool {
    ||| token_is_single(t)
    ||| t == "C_down"@
    ||| t == "Swap"@
}

/// The 1-qubit operator a single-gate token names.
pub open spec fn single_mat(t: Seq<char>) -> Seq<Seq<crate::amplitude::Zw>> {
    if t == "I"@ {
        mat_identity()
    } else if t == "H"@ {
        mat_hadamard()
    } else if t == "X"@ {
        mat_pauli_x()
    } else if t == "Y"@ {
        mat_pauli_y()
    } else if t == "Z"@ {
        mat_pauli_z()
    } else if t == "T"@ {
        mat_phase_t()
    } else {
        mat_phase_s()
    }
}

pub open spec fn single_gate_view(t: Seq<char>) -> GateView {
    GateView {
        mat: single_mat(t),
        scale: if t == "H"@ {
            1
        } else {
            0
        },
        size: 1,
    }
}

/// Controlled form of a gate model: one control qubit in front.
pub open spec fn cdown_gate_view(g: GateView) -> GateView {
    GateView { mat: cdown_mat(g.mat, g.scale), scale: g.scale, size: (g.size + 1) as nat }
}

pub open spec fn swap_gate_view() -> GateView {
    GateView { mat: mat_swap(), scale: 0, size: 2 }
}

pub open spec fn single_placement(t: Seq<char>, q: usize) -> PlacementView {
    PlacementView { gate: single_gate_view(t), qubits: seq![q] }
}

/// Resolution of one column of tokens into placements, scanning rows top to
/// bottom from row `q`:
/// - a single-gate token yields a 1-qubit placement;
/// - `C_down` takes the single gate on the next row as its target and yields
///   one controlled 2-qubit placement, and is malformed when no such row or
///   no such gate follows;
/// - `Swap` pairs with a `Swap` on the next row into one 2-qubit placement,
///   and degrades to a 1-qubit identity when its partner is missing;
/// - an unrecognized token fails the whole parse.
pub open spec fn spec_parse_col(toks: Seq<Seq<char>>, q: nat) -> Result<
    Seq<PlacementView>,
    QuantumCircuitError,
>
    decreases toks.len() - q,
{
    if q >= toks.len() {
        Ok(seq![])
    } else {
        let t = toks[q as int];
        if token_is_single(t) {
            match spec_parse_col(toks, (q + 1) as nat) {
                Ok(rest) => Ok(seq![single_placement(t, q as usize)] + rest),
                Err(e) => Err(e),
            }
        } else if t == "C_down"@ {
            if q + 1 >= toks.len() {
                Err(QuantumCircuitError::MalformedMultiQubitGate)
            } else {
                let t2 = toks[q as int + 1];
                if token_is_single(t2) {
                    match spec_parse_col(toks, (q + 2) as nat) {
                        Ok(rest) => Ok(
                            seq![
                                PlacementView {
                                    gate: cdown_gate_view(single_gate_view(t2)),
                                    qubits: seq![q as usize, (q + 1) as usize],
                                },
                            ] + rest,
                        ),
                        Err(e) => Err(e),
                    }
                } else if token_valid(t2) {
                    Err(QuantumCircuitError::MalformedMultiQubitGate)
                } else {
                    Err(QuantumCircuitError::InvalidGateToken)
                }
            }
        } else if t == "Swap"@ {
            if q + 1 < toks.len() && toks[q as int + 1] == "Swap"@ {
                match spec_parse_col(toks, (q + 2) as nat) {
                    Ok(rest) => Ok(
                        seq![
                            PlacementView {
                                gate: swap_gate_view(),
                                qubits: seq![q as usize, (q + 1) as usize],
                            },
                        ] + rest,
                    ),
                    Err(e) => Err(e),
                }
            } else {
                match spec_parse_col(toks, (q + 1) as nat) {
                    Ok(rest) => Ok(seq![single_placement("I"@, q as usize)] + rest),
                    Err(e) => Err(e),
                }
            }
        } else {
            Err(QuantumCircuitError::InvalidGateToken)
        }
    }
}

/// The concrete character sequences of the nine vocabulary tokens; callers
/// use them to tell the tokens apart.
pub proof fn lemma_token_literals()
    ensures
        "I"@.len() == 1 && "I"@[0] == 'I',
        "H"@.len() == 1 && "H"@[0] == 'H',
        "X"@.len() == 1 && "X"@[0] == 'X',
        "Y"@.len() == 1 && "Y"@[0] == 'Y',
        "Z"@.len() == 1 && "Z"@[0] == 'Z',
        "T"@.len() == 1 && "T"@[0] == 'T',
        "S"@.len() == 1 && "S"@[0] == 'S',
        "Swap"@.len() == 4 && "Swap"@[0] == 'S',
        "C_down"@.len() == 6 && "C_down"@[0] == 'C',
{
    reveal_strlit("I");
    reveal_strlit("H");
    reveal_strlit("X");
    reveal_strlit("Y");
    reveal_strlit("Z");
    reveal_strlit("T");
    reveal_strlit("S");
    reveal_strlit("Swap");
    reveal_strlit("C_down");
}

/// String equality by view.
fn token_eq(a: &str, b: &str) -> (r: bool)
    ensures
        r == (a@ == b@),
{
    let x = a.to_owned();
    let y = b.to_owned();
    x == y
}

/// Resolves one token of the grid: a complete 1-qubit catalog gate, a part of
/// a multi-qubit gate, or the invalid-token error.
pub fn parse_gate(gate_string: &str) -> (r: Result<ParsedGateToken, QuantumCircuitError>)
    ensures
        r is Err <==> !token_valid(gate_string@),
        r matches Err(e) ==> e == QuantumCircuitError::InvalidGateToken,
        r matches Ok(t) ==> match t {
            ParsedGateToken::Single(g) => token_is_single(gate_string@) && gate_wf(g@) && g@
                == single_gate_view(gate_string@),
            ParsedGateToken::PartOfMulti(m) => (m == PartOfMultiGate::control_down <==> gate_string@
                == "C_down"@) && (m == PartOfMultiGate::swap <==> gate_string@ == "Swap"@),
        },
{
    proof {
        lemma_token_literals();
    }
    if token_eq(gate_string, "I") {
        Ok(ParsedGateToken::Single(QuantumGate::i_gate()))
    } else if token_eq(gate_string, "H") {
        Ok(ParsedGateToken::Single(QuantumGate::h_gate()))
    } else if token_eq(gate_string, "X") {
        Ok(ParsedGateToken::Single(QuantumGate::x_gate()))
    } else if token_eq(gate_string, "Y") {
        Ok(ParsedGateToken::Single(QuantumGate::y_gate()))
    } else if token_eq(gate_string, "Z") {
        Ok(ParsedGateToken::Single(QuantumGate::z_gate()))
    } else if token_eq(gate_string, "T") {
        Ok(ParsedGateToken::Single(QuantumGate::t_gate()))
    } else if token_eq(gate_string, "S") {
        Ok(ParsedGateToken::Single(QuantumGate::s_gate()))
    } else if token_eq(gate_string, "Swap") {
        Ok(ParsedGateToken::PartOfMulti(PartOfMultiGate::swap))
    } else if token_eq(gate_string, "C_down") {
        Ok(ParsedGateToken::PartOfMulti(PartOfMultiGate::control_down))
    } else {
        Err(QuantumCircuitError::InvalidGateToken)
    }
}

/// Parses one time step's column of tokens into its placements.
pub fn parse_time_step_individual_gates(unparsed_circuit: &UnparsedCircuit, step: usize) -> (r:
    Result<GatesInTimeStep, QuantumCircuitError>)
    requires
        grid_wf(unparsed_circuit@),
        step < unparsed_circuit@[0].len(),
    ensures
        r matches Ok(g) ==> spec_parse_col(grid_column(unparsed_circuit@, step as int), 0)
            == Ok::<Seq<PlacementView>, QuantumCircuitError>(g@),
        r matches Ok(g) ==> placements_cover_from(g@, 0, unparsed_circuit@.len() as int),
        r matches Err(e) ==> spec_parse_col(grid_column(unparsed_circuit@, step as int), 0)
            == Err::<Seq<PlacementView>, QuantumCircuitError>(e),
{
    let rows = unparsed_circuit.circuit.len();
    let ghost toks = grid_column(unparsed_circuit@, step as int);
    proof {
        assert(unparsed_circuit.circuit@.len() == unparsed_circuit@.len());
        assert forall|k: int| 0 <= k < rows implies (
        #[trigger] unparsed_circuit.circuit@[k])@.len() == unparsed_circuit@[0].len() by {
            assert(unparsed_circuit@[k].len() == unparsed_circuit@[0].len());
        }
    }
    let mut current_gates: GatesInTimeStep = GatesInTimeStep { gates: Vec::new() };
    let mut qubit_no: usize = 0;
    while qubit_no < rows
        invariant
            grid_wf(unparsed_circuit@),
            step < unparsed_circuit@[0].len(),
            rows == unparsed_circuit@.len() == unparsed_circuit.circuit@.len(),
            forall|k: int|
                0 <= k < rows ==> (#[trigger] unparsed_circuit.circuit@[k])@.len()
                    == unparsed_circuit@[0].len(),
            toks == grid_column(unparsed_circuit@, step as int),
            toks.len() == rows,
            qubit_no <= rows,
            placements_cover_from(current_gates@, 0, qubit_no as int),
            spec_parse_col(toks, qubit_no as nat) matches Ok(rest) ==> spec_parse_col(toks, 0)
                == Ok::<Seq<PlacementView>, QuantumCircuitError>(current_gates@ + rest),
            spec_parse_col(toks, qubit_no as nat) matches Err(e) ==> spec_parse_col(toks, 0)
                == Err::<Seq<PlacementView>, QuantumCircuitError>(e),
        decreases rows - qubit_no,
    {
        let ghost acc0 = current_gates@;
        let ghost q = qubit_no as nat;
        let tok = &unparsed_circuit.circuit[qubit_no][step];
        proof {
            lemma_token_literals();
            assert(tok@ == toks[qubit_no as int]);
        }
        match parse_gate(tok.as_str()) {
            Err(e) => {
                return Err(e);
            },
            Ok(ParsedGateToken::Single(g)) => {
                current_gates.gates.push(
                    QuantumGateWrapper { qubits: vec![qubit_no], gate: g },
                );
                proof {
                    let p = single_placement(toks[q as int], qubit_no);
                    assert(current_gates@ =~~= acc0.push(p));
                    assert forall|rest: Seq<PlacementView>|
                        acc0 + (seq![p] + rest) == acc0.push(p) + rest by {
                        assert(acc0 + (seq![p] + rest) =~~= acc0.push(p) + rest);
                    }
                    assert(p.gate =~= g@);
                    assert(placement_wf(p));
                    lemma_cover_push(acc0, p, 0, qubit_no as int);
                }
                qubit_no = qubit_no + 1;
            },
            Ok(ParsedGateToken::PartOfMulti(PartOfMultiGate::control_down)) => {
                if qubit_no + 1 >= rows {
                    return Err(QuantumCircuitError::MalformedMultiQubitGate);
                }
                let tok2 = &unparsed_circuit.circuit[qubit_no + 1][step];
                proof {
                    assert(tok2@ == toks[qubit_no as int + 1]);
                }
                match parse_gate(tok2.as_str()) {
                    Err(e) => {
                        return Err(e);
                    },
                    Ok(ParsedGateToken::PartOfMulti(_)) => {
                        return Err(QuantumCircuitError::MalformedMultiQubitGate);
                    },
                    Ok(ParsedGateToken::Single(g2)) => {
                        let controlled = QuantumGate::c_down(g2);
                        current_gates.gates.push(
                            QuantumGateWrapper {
                                qubits: vec![qubit_no, qubit_no + 1],
                                gate: controlled,
                            },
                        );
                        proof {
                            let p = PlacementView {
                                gate: cdown_gate_view(single_gate_view(toks[q as int + 1])),
                                qubits: seq![qubit_no, (qubit_no + 1) as usize],
                            };
                            assert(p.gate =~= controlled@);
                            assert(current_gates@ =~~= acc0.push(p));
                            assert forall|rest: Seq<PlacementView>|
                                acc0 + (seq![p] + rest) == acc0.push(p) + rest by {
                                assert(acc0 + (seq![p] + rest) =~~= acc0.push(p) + rest);
                            }
                            assert(placement_wf(p));
                            lemma_cover_push(acc0, p, 0, qubit_no as int);
                        }
                        qubit_no = qubit_no + 2;
                    },
                }
            },
            Ok(ParsedGateToken::PartOfMulti(PartOfMultiGate::swap)) => {
                let mut paired = false;
                if qubit_no + 1 < rows {
                    let tok2 = &unparsed_circuit.circuit[qubit_no + 1][step];
                    proof {
                        assert(tok2@ == toks[qubit_no as int + 1]);
                    }
                    if token_eq(tok2.as_str(), "Swap") {
                        paired = true;
                    }
                }
                if paired {
                    current_gates.gates.push(
                        QuantumGateWrapper {
                            qubits: vec![qubit_no, qubit_no + 1],
                            gate: QuantumGate::swap_gate(),
                        },
                    );
                    proof {
                        let p = PlacementView {
                            gate: swap_gate_view(),
                            qubits: seq![qubit_no, (qubit_no + 1) as usize],
                        };
                        assert(p.gate =~= current_gates.gates@.last()@.gate);
                        assert(current_gates@ =~~= acc0.push(p));
                        assert forall|rest: Seq<PlacementView>|
                            acc0 + (seq![p] + rest) == acc0.push(p) + rest by {
                            assert(acc0 + (seq![p] + rest) =~~= acc0.push(p) + rest);
                        }
                        assert(placement_wf(p));
                        lemma_cover_push(acc0, p, 0, qubit_no as int);
                    }
                    qubit_no = qubit_no + 2;
                } else {
                    current_gates.gates.push(
                        QuantumGateWrapper { qubits: vec![qubit_no], gate: QuantumGate::i_gate() },
                    );
                    proof {
                        let p = single_placement("I"@, qubit_no);
                        assert(single_gate_view("I"@) == GateView {
                            mat: mat_identity(),
                            scale: 0 as nat,
                            size: 1 as nat,
                        });
                        assert(current_gates@ =~~= acc0.push(p));
                        assert forall|rest: Seq<PlacementView>|
                            acc0 + (seq![p] + rest) == acc0.push(p) + rest by {
                            assert(acc0 + (seq![p] + rest) =~~= acc0.push(p) + rest);
                        }
                        assert(p.gate =~= current_gates.gates@.last()@.gate);
                        assert(placement_wf(p));
                        lemma_cover_push(acc0, p, 0, qubit_no as int);
                    }
                    qubit_no = qubit_no + 1;
                }
            },
        }
    }
    proof {
        assert(spec_parse_col(toks, qubit_no as nat) == Ok::<Seq<PlacementView>,
            QuantumCircuitError,
        >(seq![]));
        assert(current_gates@ + seq![] =~~= current_gates@);
    }
    Ok(current_gates)
}

/// The structured circuit: one list of placements per time step.
#[derive(Debug)]
pub struct ParsedCircuit {
    pub circuit: Vec<GatesInTimeStep>,
}

impl View for ParsedCircuit {
    type V = Seq<Seq<PlacementView>>;

    open spec fn view(&self) -> Seq<Seq<PlacementView>> {
        Seq::new(self.circuit@.len(), |i: int| self.circuit@[i]@)
    }
}

/// A well-formed placement: a well-formed operator over as many qubit rows as
/// its width, the rows consecutive and ascending.
pub open spec fn placement_wf(p: PlacementView) -> bool {
    &&& gate_wf(p.gate)
    &&& p.qubits.len() == p.gate.size
    &&& forall|k: int| 0 <= k < p.qubits.len() ==> (#[trigger] p.qubits[k]) as int == p.qubits[0]
        + k
}

/// The placements cover rows q..n exactly, in ascending order: each starts
/// where the previous one ended.
pub open spec fn placements_cover_from(ps: Seq<PlacementView>, q: int, n: int) -> bool
    decreases ps.len(),
{
    if ps.len() == 0 {
        q == n
    } else {
        &&& placement_wf(ps[0])
        &&& ps[0].qubits.len() >= 1
        &&& ps[0].qubits[0] as int == q
        &&& q + ps[0].qubits.len() <= n
        &&& placements_cover_from(ps.skip(1), q + ps[0].qubits.len() as int, n)
    }
}

/// Appending a placement that starts where the cover ended extends the cover.
pub proof fn lemma_cover_push(ps: Seq<PlacementView>, p: PlacementView, q0: int, q: int)
    requires
        placements_cover_from(ps, q0, q),
        placement_wf(p),
        p.qubits.len() >= 1,
        p.qubits[0] as int == q,
    ensures
        placements_cover_from(ps.push(p), q0, q + p.qubits.len()),
    decreases ps.len(),
{
    if ps.len() == 0 {
        assert(ps.push(p).skip(1) =~~= Seq::<PlacementView>::empty());
        assert(placements_cover_from(ps.push(p).skip(1), q + p.qubits.len() as int, q
            + p.qubits.len() as int));
    } else {
        lemma_cover_push(ps.skip(1), p, q0 + ps[0].qubits.len(), q);
        assert(ps.push(p).skip(1) =~~= ps.skip(1).push(p));
        assert(placements_cover_from(ps.push(p).skip(1), q0 + ps[0].qubits.len() as int, q
            + p.qubits.len() as int));
    }
}

/// Parse of a whole grid, one column at a time; the first failing column
/// aborts the parse.
pub open spec fn spec_preparse_upto(g: Seq<Seq<Seq<char>>>, s: int) -> Result<
    Seq<Seq<PlacementView>>,
    QuantumCircuitError,
>
    decreases s,
{
    if s <= 0 {
        Ok(seq![])
    } else {
        match spec_preparse_upto(g, s - 1) {
            Err(e) => Err(e),
            Ok(acc) => match spec_parse_col(grid_column(g, s - 1), 0) {
                Err(e) => Err(e),
                Ok(ps) => Ok(acc.push(ps)),
            },
        }
    }
}

/// The whole-grid parse of the token grid.
pub open spec fn spec_preparse(g: Seq<Seq<Seq<char>>>) -> Result<
    Seq<Seq<PlacementView>>,
    QuantumCircuitError,
> {
    spec_preparse_upto(g, g[0].len() as int)
}

/// An error at one column is the outcome of every longer prefix.
proof fn lemma_preparse_err_stays(g: Seq<Seq<Seq<char>>>, s: int, t: int, e: QuantumCircuitError)
    requires
        0 <= s <= t,
        spec_preparse_upto(g, s) == Err::<Seq<Seq<PlacementView>>, QuantumCircuitError>(e),
    ensures
        spec_preparse_upto(g, t) == Err::<Seq<Seq<PlacementView>>, QuantumCircuitError>(e),
    decreases t - s,
{
    if t > s {
        lemma_preparse_err_stays(g, s, t - 1, e);
    }
}

/// Parses every column of the grid into per-step placements; the resulting
/// steps all cover the qubit rows exactly.  The first invalid or malformed
/// column aborts the parse with its error and no partial result.
pub fn parse_gates_individually(unparsed_circuit: &UnparsedCircuit) -> (r: Result<
    ParsedCircuit,
    QuantumCircuitError,
>)
    requires
        grid_wf(unparsed_circuit@),
    ensures
        r matches Ok(c) ==> {
            &&& spec_preparse(unparsed_circuit@) == Ok::<Seq<Seq<PlacementView>>,
                QuantumCircuitError,
            >(c@)
            &&& c@.len() == unparsed_circuit@[0].len()
            &&& forall|t: int|
                0 <= t < c@.len() ==> placements_cover_from(
                    #[trigger] c@[t],
                    0,
                    unparsed_circuit@.len() as int,
                )
        },
        r matches Err(e) ==> spec_preparse(unparsed_circuit@) == Err::<Seq<Seq<PlacementView>>,
            QuantumCircuitError,
        >(e),
{
    let cols = unparsed_circuit.circuit[0].len();
    let ghost gv = unparsed_circuit@;
    proof {
        assert(unparsed_circuit.circuit@[0]@.len() == gv[0].len());
    }
    let mut initial_gates: Vec<GatesInTimeStep> = Vec::new();
    proof {
        assert(Seq::new(initial_gates@.len(), |i: int| initial_gates@[i]@)
            =~~= Seq::<Seq<PlacementView>>::empty());
    }
    let mut step: usize = 0;
    while step < cols
        invariant
            grid_wf(gv),
            gv == unparsed_circuit@,
            cols == gv[0].len(),
            step <= cols,
            initial_gates@.len() == step,
            spec_preparse_upto(gv, step as int) == Ok::<Seq<Seq<PlacementView>>,
                QuantumCircuitError,
            >(Seq::new(initial_gates@.len(), |i: int| initial_gates@[i]@)),
            forall|t: int|
                0 <= t < step ==> placements_cover_from(
                    (#[trigger] initial_gates@[t])@,
                    0,
                    gv.len() as int,
                ),
        decreases cols - step,
    {
        let ghost acc0 = Seq::new(initial_gates@.len(), |i: int| initial_gates@[i]@);
        match parse_time_step_individual_gates(unparsed_circuit, step) {
            Err(e) => {
                proof {
                    lemma_preparse_err_stays(gv, step as int + 1, cols as int, e);
                }
                return Err(e);
            },
            Ok(gates_in_time_step) => {
                initial_gates.push(gates_in_time_step);
                proof {
                    assert(Seq::new(initial_gates@.len(), |i: int| initial_gates@[i]@) =~~= acc0
                        .push(initial_gates@[step as int]@));
                }
                step = step + 1;
            },
        }
    }
    let r = ParsedCircuit { circuit: initial_gates };
    proof {
        assert(r@ =~~= Seq::new(initial_gates@.len(), |i: int| initial_gates@[i]@));
    }
    Ok(r)
}

/// A set of qubit rows that must be represented jointly, kept in ascending
/// order.
#[derive(Debug)]
pub struct EntangledQubitGroup {
    pub qubits: Vec<usize>,
}

impl View for EntangledQubitGroup {
    type V = Seq<usize>;

    open spec fn view(&self) -> Seq<usize> {
        self.qubits@
    }
}

fn usize_vecs_eq(a: &Vec<usize>, b: &Vec<usize>) -> (r: bool)
    ensures
        r == (a@ == b@),
{
    if a.len() != b.len() {
        proof {
            assert(a@ != b@);
        }
        return false;
    }
    let mut i: usize = 0;
    while i < a.len()
        invariant
            a@.len() == b@.len(),
            i <= a@.len(),
            forall|j: int| 0 <= j < i ==> a@[j] == b@[j],
        decreases a@.len() - i,
    {
        if a[i] != b[i] {
            proof {
                assert(a@ != b@);
            }
            return false;
        }
        i = i + 1;
    }
    proof {
        assert(a@ =~~= b@);
    }
    true
}

pub(crate) fn copy_usizes(v: &Vec<usize>) -> (r: Vec<usize>)
    ensures
        r@ == v@,
{
    let mut r: Vec<usize> = Vec::new();
    let mut i: usize = 0;
    while i < v.len()
        invariant
            i <= v@.len(),
            r@ == v@.subrange(0, i as int),
        decreases v@.len() - i,
    {
        r.push(v[i]);
        proof {
            assert(v@.subrange(0, i as int).push(v@[i as int]) =~~= v@.subrange(0, i + 1));
        }
        i = i + 1;
    }
    proof {
        assert(v@.subrange(0, v@.len() as int) =~~= v@);
    }
    r
}

impl PartialEq for EntangledQubitGroup {
    fn eq(&self, other: &EntangledQubitGroup) -> (r: bool) {
        usize_vecs_eq(&self.qubits, &other.qubits)
    }
}

impl vstd::std_specs::cmp::PartialEqSpecImpl for EntangledQubitGroup {
    open spec fn obeys_eq_spec() -> bool {
        true
    }

    open spec fn eq_spec(&self, other: &EntangledQubitGroup) -> bool {
        self@ == other@
    }
}

/// The groups of one time step: a partition of the qubit rows into ascending
/// runs, in ascending order.
#[derive(Debug)]
pub struct EntangledQubitGroupsInTimeStep {
    pub groups: Vec<EntangledQubitGroup>,
}

impl View for EntangledQubitGroupsInTimeStep {
    type V = Seq<Seq<usize>>;

    open spec fn view(&self) -> Seq<Seq<usize>> {
        Seq::new(self.groups@.len(), |i: int| self.groups@[i]@)
    }
}

/// The first group that contains qubit `q`, scanning front to back.
pub open spec fn find_group(groups: Seq<Seq<usize>>, q: usize) -> Option<Seq<usize>>
    decreases groups.len(),
{
    if groups.len() == 0 {
        None
    } else if groups[0].contains(q) {
        Some(groups[0])
    } else {
        find_group(groups.skip(1), q)
    }
}

/// Replacement of the adjacent pair (g1, g2) by their concatenation; an
/// occurrence of g1 not followed directly by g2 is the bookkeeping violation.
pub open spec fn spec_merge_groups(groups: Seq<Seq<usize>>, g1: Seq<usize>, g2: Seq<usize>) -> Result<
    Seq<Seq<usize>>,
    QuantumCircuitError,
>
    decreases groups.len(),
{
    if groups.len() == 0 {
        Ok(seq![])
    } else if groups[0] == g1 {
        if groups.len() < 2 || groups[1] != g2 {
            Err(QuantumCircuitError::InternalInvariantViolation)
        } else {
            match spec_merge_groups(groups.skip(2), g1, g2) {
                Ok(rest) => Ok(seq![g1 + g2] + rest),
                Err(e) => Err(e),
            }
        }
    } else {
        match spec_merge_groups(groups.skip(1), g1, g2) {
            Ok(rest) => Ok(seq![groups[0]] + rest),
            Err(e) => Err(e),
        }
    }
}

impl EntangledQubitGroupsInTimeStep {
    /// Merges the two given groups, which the tracker always finds adjacent,
    /// into one; the new group lists `group1`'s qubits and then `group2`'s,
    /// preserving basis order.
    pub fn combine_entangled_groups(
        self,
        group1: EntangledQubitGroup,
        group2: EntangledQubitGroup,
    ) -> (r: Result<EntangledQubitGroupsInTimeStep, QuantumCircuitError>)
        ensures
            r matches Ok(g) ==> spec_merge_groups(self@, group1@, group2@) == Ok::<
                Seq<Seq<usize>>,
                QuantumCircuitError,
            >(g@),
            r matches Err(e) ==> spec_merge_groups(self@, group1@, group2@) == Err::<
                Seq<Seq<usize>>,
                QuantumCircuitError,
            >(e),
    {
        let len = self.groups.len();
        let ghost gs = self@;
        let mut return_list: Vec<EntangledQubitGroup> = Vec::new();
        proof {
            assert(gs.subrange(0, len as int) =~~= gs);
            assert(Seq::new(return_list@.len(), |i: int| return_list@[i]@) =~~= Seq::<
                Seq<usize>,
            >::empty());
            assert forall|rest: Seq<Seq<usize>>|
                Seq::<Seq<usize>>::empty() + rest == rest by {
                assert(Seq::<Seq<usize>>::empty() + rest =~~= rest);
            }
        }
        let mut index: usize = 0;
        while index < len
            invariant
                gs == self@,
                len == gs.len(),
                index <= len,
                spec_merge_groups(gs.subrange(index as int, len as int), group1@, group2@)
                    matches Ok(rest) ==> spec_merge_groups(gs, group1@, group2@) == Ok::<
                    Seq<Seq<usize>>,
                    QuantumCircuitError,
                >(Seq::new(return_list@.len(), |i: int| return_list@[i]@) + rest),
                spec_merge_groups(gs.subrange(index as int, len as int), group1@, group2@)
                    matches Err(e) ==> spec_merge_groups(gs, group1@, group2@) == Err::<
                    Seq<Seq<usize>>,
                    QuantumCircuitError,
                >(e),
            decreases len - index,
        {
            let ghost acc0 = Seq::new(return_list@.len(), |i: int| return_list@[i]@);
            let ghost tail = gs.subrange(index as int, len as int);
            let group = &self.groups[index];
            if *group == group1 {
                if index + 1 >= len || !(self.groups[index + 1] == group2) {
                    return Err(QuantumCircuitError::InternalInvariantViolation);
                }
                let mut merged_qubits = copy_usizes(&group1.qubits);
                let mut k: usize = 0;
                while k < group2.qubits.len()
                    invariant
                        k <= group2.qubits@.len(),
                        merged_qubits@ == group1@ + group2@.subrange(0, k as int),
                    decreases group2.qubits@.len() - k,
                {
                    merged_qubits.push(group2.qubits[k]);
                    proof {
                        assert((group1@ + group2@.subrange(0, k as int)).push(group2@[k as int])
                            =~~= group1@ + group2@.subrange(0, k + 1));
                    }
                    k = k + 1;
                }
                proof {
                    assert(group1@ + group2@.subrange(0, group2@.len() as int) =~~= group1@
                        + group2@);
                    assert(merged_qubits@ == group1@ + group2@);
                }
                return_list.push(EntangledQubitGroup { qubits: merged_qubits });
                proof {
                    assert(tail.skip(2) =~~= gs.subrange(index + 2, len as int));
                    assert(Seq::new(return_list@.len(), |i: int| return_list@[i]@) =~~= acc0.push(
                        group1@ + group2@,
                    ));
                    assert forall|rest: Seq<Seq<usize>>|
                        acc0 + (seq![group1@ + group2@] + rest) == acc0.push(group1@ + group2@)
                            + rest by {
                        assert(acc0 + (seq![group1@ + group2@] + rest) =~~= acc0.push(
                            group1@ + group2@,
                        ) + rest);
                    }
                }
                index = index + 2;
            } else {
                return_list.push(EntangledQubitGroup { qubits: copy_usizes(&group.qubits) });
                proof {
                    assert(tail.skip(1) =~~= gs.subrange(index + 1, len as int));
                    assert(Seq::new(return_list@.len(), |i: int| return_list@[i]@) =~~= acc0.push(
                        gs[index as int],
                    ));
                    assert forall|rest: Seq<Seq<usize>>|
                        acc0 + (seq![gs[index as int]] + rest) == acc0.push(gs[index as int])
                            + rest by {
                        assert(acc0 + (seq![gs[index as int]] + rest) =~~= acc0.push(
                            gs[index as int],
                        ) + rest);
                    }
                }
                index = index + 1;
            }
        }
        let r = EntangledQubitGroupsInTimeStep { groups: return_list };
        proof {
            assert(gs.subrange(len as int, len as int) =~~= Seq::<Seq<usize>>::empty());
            assert(r@ =~~= Seq::new(r.groups@.len(), |i: int| r.groups@[i]@));
            assert(r@ + Seq::<Seq<usize>>::empty() =~~= r@);
        }
        Ok(r)
    }
}

/// The group of the given qubit in the step's partition; `None` is the
/// defensive outcome for a qubit absent from every group.
pub fn find_qubits_that_are_entangled_to_qubit(
    qubit: usize,
    entangled_qubit_groups: &EntangledQubitGroupsInTimeStep,
) -> (r: Option<EntangledQubitGroup>)
    ensures
        r matches Some(g) ==> find_group(entangled_qubit_groups@, qubit) == Some(g@),
        r is None ==> find_group(entangled_qubit_groups@, qubit) is None,
{
    let ghost gs = entangled_qubit_groups@;
    let len = entangled_qubit_groups.groups.len();
    proof {
        assert(gs.subrange(0, len as int) =~~= gs);
    }
    let mut index: usize = 0;
    while index < len
        invariant
            gs == entangled_qubit_groups@,
            len == gs.len(),
            index <= len,
            find_group(gs, qubit) == find_group(gs.subrange(index as int, len as int), qubit),
        decreases len - index,
    {
        let ghost tail = gs.subrange(index as int, len as int);
        let group = &entangled_qubit_groups.groups[index];
        let mut k: usize = 0;
        let mut found = false;
        while k < group.qubits.len() && !found
            invariant
                0 <= index < len,
                gs == entangled_qubit_groups@,
                len == gs.len(),
                group@ == gs[index as int],
                k <= group.qubits@.len(),
                found <==> exists|j: int| 0 <= j < k && gs[index as int][j] == qubit,
            decreases group.qubits@.len() - k,
        {
            if group.qubits[k] == qubit {
                found = true;
            }
            k = k + 1;
        }
        if found {
            proof {
                assert(gs[index as int].contains(qubit));
                assert(tail[0] == gs[index as int]);
            }
            return Some(EntangledQubitGroup { qubits: copy_usizes(&group.qubits) });
        }
        proof {
            assert(!gs[index as int].contains(qubit)) by {
                if gs[index as int].contains(qubit) {
                    let j = choose|j: int|
                        0 <= j < gs[index as int].len() && gs[index as int][j] == qubit;
                    assert(exists|j2: int| 0 <= j2 < k && gs[index as int][j2] == qubit);
                }
            }
            assert(tail.skip(1) =~~= gs.subrange(index + 1, len as int));
        }
        index = index + 1;
    }
    proof {
        assert(gs.subrange(len as int, len as int) =~~= Seq::<Seq<usize>>::empty());
    }
    None
}

/// Per-step partitions as mathematical values.
pub open spec fn qg_view(v: Seq<EntangledQubitGroupsInTimeStep>) -> Seq<Seq<Seq<usize>>> {
    Seq::new(v.len(), |i: int| v[i]@)
}

/// The step-0 partition: one group per placement.
pub open spec fn step0_groups(circ: Seq<Seq<PlacementView>>) -> Seq<Seq<usize>> {
    Seq::new(circ[0].len(), |i: int| circ[0][i].qubits)
}

/// The partition after folding the first `k` placements of a step into the
/// previous step's partition: a 2-qubit placement whose operands lie in
/// different groups of the partition built so far unions them.
pub open spec fn spec_entangle_step(
    prev: Seq<Seq<usize>>,
    gates: Seq<PlacementView>,
    k: int,
) -> Result<Seq<Seq<usize>>, QuantumCircuitError>
    decreases k,
{
    if k <= 0 {
        Ok(prev)
    } else {
        match spec_entangle_step(prev, gates, k - 1) {
            Err(e) => Err(e),
            Ok(cur) => {
                let g = gates[k - 1];
                if g.qubits.len() == 2 {
                    match (find_group(cur, g.qubits[0]), find_group(cur, g.qubits[1])) {
                        (Some(g1), Some(g2)) => if g1 != g2 {
                            spec_merge_groups(cur, g1, g2)
                        } else {
                            Ok(cur)
                        },
                        _ => Err(QuantumCircuitError::InternalInvariantViolation),
                    }
                } else {
                    Ok(cur)
                }
            },
        }
    }
}

/// The per-step partitions of the first `t` steps.
pub open spec fn spec_entangle_upto(circ: Seq<Seq<PlacementView>>, t: int) -> Result<
    Seq<Seq<Seq<usize>>>,
    QuantumCircuitError,
>
    decreases t,
{
    if t <= 1 {
        Ok(seq![step0_groups(circ)])
    } else {
        match spec_entangle_upto(circ, t - 1) {
            Err(e) => Err(e),
            Ok(acc) => match spec_entangle_step(acc.last(), circ[t - 1], circ[t - 1].len() as int) {
                Err(e) => Err(e),
                Ok(g) => Ok(acc.push(g)),
            },
        }
    }
}

proof fn lemma_entangle_step_err_stays(
    prev: Seq<Seq<usize>>,
    gates: Seq<PlacementView>,
    k: int,
    t: int,
    e: QuantumCircuitError,
)
    requires
        0 <= k <= t,
        spec_entangle_step(prev, gates, k) == Err::<Seq<Seq<usize>>, QuantumCircuitError>(e),
    ensures
        spec_entangle_step(prev, gates, t) == Err::<Seq<Seq<usize>>, QuantumCircuitError>(e),
    decreases t - k,
{
    if t > k {
        lemma_entangle_step_err_stays(prev, gates, k, t - 1, e);
    }
}

proof fn lemma_entangle_upto_err_stays(
    circ: Seq<Seq<PlacementView>>,
    s: int,
    t: int,
    e: QuantumCircuitError,
)
    requires
        1 <= s <= t,
        spec_entangle_upto(circ, s) == Err::<Seq<Seq<Seq<usize>>>, QuantumCircuitError>(e),
    ensures
        spec_entangle_upto(circ, t) == Err::<Seq<Seq<Seq<usize>>>, QuantumCircuitError>(e),
    decreases t - s,
{
    if t > s {
        lemma_entangle_upto_err_stays(circ, s, t - 1, e);
    }
}

fn copy_group_list(src: &EntangledQubitGroupsInTimeStep) -> (r: EntangledQubitGroupsInTimeStep)
    ensures
        r@ == src@,
{
    let mut groups: Vec<EntangledQubitGroup> = Vec::new();
    let mut i: usize = 0;
    while i < src.groups.len()
        invariant
            i <= src.groups@.len(),
            groups@.len() == i,
            forall|j: int| 0 <= j < i ==> (#[trigger] groups@[j])@ == src@[j],
        decreases src.groups@.len() - i,
    {
        groups.push(EntangledQubitGroup { qubits: copy_usizes(&src.groups[i].qubits) });
        i = i + 1;
    }
    let r = EntangledQubitGroupsInTimeStep { groups };
    proof {
        assert(r@ =~~= src@);
    }
    r
}

/// Derives the per-step qubit partitions of a parsed circuit: step 0 has one
/// group per placement, and each later step begins from the previous one and
/// unions the operand groups of every 2-qubit placement.  Merges are
/// monotonic: once unioned, groups never split.
pub fn entangle_qubits(input: &ParsedCircuit) -> (r: Result<
    Vec<EntangledQubitGroupsInTimeStep>,
    QuantumCircuitError,
>)
    requires
        input@.len() >= 1,
    ensures
        r matches Ok(v) ==> {
            &&& spec_entangle_upto(input@, input@.len() as int) == Ok::<Seq<Seq<Seq<usize>>>,
                QuantumCircuitError,
            >(qg_view(v@))
            &&& v@.len() == input@.len()
        },
        r matches Err(e) ==> spec_entangle_upto(input@, input@.len() as int) == Err::<
            Seq<Seq<Seq<usize>>>,
            QuantumCircuitError,
        >(e),
{
    let ghost cv = input@;
    let steps = input.circuit.len();
    let first = &input.circuit[0];
    let mut groups0: Vec<EntangledQubitGroup> = Vec::new();
    let mut i: usize = 0;
    while i < first.gates.len()
        invariant
            first@ == cv[0],
            i <= first.gates@.len(),
            first.gates@.len() == cv[0].len(),
            groups0@.len() == i,
            forall|j: int| 0 <= j < i ==> (#[trigger] groups0@[j])@ == cv[0][j].qubits,
        decreases first.gates@.len() - i,
    {
        groups0.push(EntangledQubitGroup { qubits: copy_usizes(&first.gates[i].qubits) });
        i = i + 1;
    }
    let mut qubit_groups: Vec<EntangledQubitGroupsInTimeStep> = Vec::new();
    qubit_groups.push(EntangledQubitGroupsInTimeStep { groups: groups0 });
    proof {
        assert(qubit_groups@[0]@ =~~= step0_groups(cv));
        assert(qg_view(qubit_groups@) =~~= seq![step0_groups(cv)]);
    }
    let mut step: usize = 1;
    while step < steps
        invariant
            cv == input@,
            steps == cv.len() == input.circuit@.len(),
            1 <= step <= steps,
            qubit_groups@.len() == step,
            spec_entangle_upto(cv, step as int) == Ok::<Seq<Seq<Seq<usize>>>, QuantumCircuitError>(
                qg_view(qubit_groups@),
            ),
        decreases steps - step,
    {
        let ghost acc = qg_view(qubit_groups@);
        let prev_ref = &qubit_groups[step - 1];
        let ghost prevv = prev_ref@;
        proof {
            assert(acc.last() == prevv);
        }
        let mut cur = copy_group_list(prev_ref);
        let gates = &input.circuit[step];
        let ghost gv = cv[step as int];
        proof {
            assert(gates@ == gv);
            assert(gates.gates@.len() == gv.len());
        }
        let mut gi: usize = 0;
        while gi < gates.gates.len()
            invariant
                cv == input@,
                steps == cv.len() == input.circuit@.len(),
                1 <= step < steps,
                qubit_groups@.len() == step,
                spec_entangle_upto(cv, step as int) == Ok::<Seq<Seq<Seq<usize>>>,
                    QuantumCircuitError,
                >(acc),
                acc.last() == prevv,
                prev_ref@ == prevv,
                gates@ == gv,
                gv == cv[step as int],
                gates.gates@.len() == gv.len(),
                gi <= gv.len(),
                spec_entangle_step(prevv, gv, gi as int) == Ok::<Seq<Seq<usize>>,
                    QuantumCircuitError,
                >(cur@),
            decreases gv.len() - gi,
        {
            let gate = &gates.gates[gi];
            proof {
                assert(gate@ == gv[gi as int]);
            }
            if gate.qubits.len() == 2 {
                let f1 = find_qubits_that_are_entangled_to_qubit(gate.qubits[0], &cur);
                let f2 = find_qubits_that_are_entangled_to_qubit(gate.qubits[1], &cur);
                match (f1, f2) {
                    (Some(g1), Some(g2)) => {
                        if !(g1 == g2) {
                            match cur.combine_entangled_groups(g1, g2) {
                                Ok(next) => {
                                    cur = next;
                                },
                                Err(e) => {
                                    proof {
                                        lemma_entangle_step_err_stays(
                                            prevv,
                                            gv,
                                            gi as int + 1,
                                            gv.len() as int,
                                            e,
                                        );
                                        lemma_entangle_upto_err_stays(
                                            cv,
                                            step as int + 1,
                                            steps as int,
                                            e,
                                        );
                                    }
                                    return Err(e);
                                },
                            }
                        }
                    },
                    _ => {
                        proof {
                            let e = QuantumCircuitError::InternalInvariantViolation;
                            lemma_entangle_step_err_stays(
                                prevv,
                                gv,
                                gi as int + 1,
                                gv.len() as int,
                                e,
                            );
                            lemma_entangle_upto_err_stays(cv, step as int + 1, steps as int, e);
                        }
                        return Err(QuantumCircuitError::InternalInvariantViolation);
                    },
                }
            }
            gi = gi + 1;
        }
        qubit_groups.push(cur);
        proof {
            assert(qg_view(qubit_groups@) =~~= acc.push(qubit_groups@[step as int]@));
        }
        step = step + 1;
    }
    Ok(qubit_groups)
}

/// The placements ending a cover: the last one is well-formed and ends at the
/// cover's upper bound.
pub proof fn lemma_cover_last(ps: Seq<PlacementView>, q0: int, n: int)
    requires
        placements_cover_from(ps, q0, n),
        ps.len() >= 1,
    ensures
        placement_wf(ps.last()),
        ps.last().qubits.len() >= 1,
        q0 <= ps.last().qubits[0],
        ps.last().qubits[0] + ps.last().qubits.len() == n,
        placements_cover_from(ps.drop_last(), q0, ps.last().qubits[0] as int),
    decreases ps.len(),
{
    if ps.len() == 1 {
        assert(ps.last() == ps[0]);
        assert(placements_cover_from(ps.skip(1), q0 + ps[0].qubits.len(), n));
        assert(ps.skip(1) =~~= Seq::<PlacementView>::empty());
        assert(placements_cover_from(Seq::<PlacementView>::empty(), q0 + ps[0].qubits.len(), n));
        assert(q0 + ps[0].qubits.len() == n);
        assert(ps.drop_last() =~~= Seq::<PlacementView>::empty());
    } else {
        lemma_cover_last(ps.skip(1), q0 + ps[0].qubits.len(), n);
        assert(ps.skip(1).last() == ps.last());
        assert(ps.skip(1).drop_last() =~~= ps.drop_last().skip(1));
        assert(placements_cover_from(ps.drop_last(), q0, ps.last().qubits[0] as int));
    }
}

/// The fusion of two adjacent placements: tensored operator, concatenated
/// qubit lists.
pub open spec fn fuse_placements(p: PlacementView, g: PlacementView) -> PlacementView {
    PlacementView {
        gate: GateView {
            mat: crate::quantum_gate::kron_mat(p.gate.mat, g.gate.mat),
            scale: (p.gate.scale + g.gate.scale) as nat,
            size: (p.gate.size + g.gate.size) as nat,
        },
        qubits: p.qubits + g.qubits,
    }
}

/// The reduction of one step's first `k` placements against that step's
/// partition: a placement whose leading operand shares its group with the
/// running placement is tensored into it; otherwise it starts a new one.
pub open spec fn spec_combine_step(
    gates: Seq<PlacementView>,
    groups: Seq<Seq<usize>>,
    k: int,
) -> Result<Seq<PlacementView>, QuantumCircuitError>
    decreases k,
{
    if k <= 1 {
        match find_group(groups, gates[0].qubits[0]) {
            None => Err(QuantumCircuitError::InternalInvariantViolation),
            Some(_) => Ok(seq![gates[0]]),
        }
    } else {
        match spec_combine_step(gates, groups, k - 1) {
            Err(e) => Err(e),
            Ok(acc) => {
                let g = gates[k - 1];
                match (find_group(groups, g.qubits[0]), find_group(
                    groups,
                    acc.last().qubits[0],
                )) {
                    (Some(gc), Some(gp)) => if gc == gp {
                        Ok(acc.drop_last().push(fuse_placements(acc.last(), g)))
                    } else {
                        Ok(acc.push(g))
                    },
                    _ => Err(QuantumCircuitError::InternalInvariantViolation),
                }
            },
        }
    }
}

proof fn lemma_combine_step_err_stays(
    gates: Seq<PlacementView>,
    groups: Seq<Seq<usize>>,
    k: int,
    t: int,
    e: QuantumCircuitError,
)
    requires
        1 <= k <= t,
        spec_combine_step(gates, groups, k) == Err::<Seq<PlacementView>, QuantumCircuitError>(e),
    ensures
        spec_combine_step(gates, groups, t) == Err::<Seq<PlacementView>, QuantumCircuitError>(e),
    decreases t - k,
{
    if t > k {
        lemma_combine_step_err_stays(gates, groups, k, t - 1, e);
    }
}

fn copy_gate(g: &QuantumGate) -> (r: QuantumGate)
    ensures
        r@ == g@,
{
    let mut matrix: Vec<Vec<Amplitude>> = Vec::new();
    let mut i: usize = 0;
    while i < g.matrix.len()
        invariant
            i <= g.matrix@.len(),
            matrix@.len() == i,
            forall|k: int| 0 <= k < i ==> (#[trigger] matrix@[k])@.len() == g.matrix@[k]@.len(),
            forall|k: int, l: int|
                0 <= k < i && 0 <= l < g.matrix@[k]@.len() ==> (#[trigger] matrix@[k]@[l])
                    == g.matrix@[k]@[l],
        decreases g.matrix@.len() - i,
    {
        let row = &g.matrix[i];
        let mut new_row: Vec<Amplitude> = Vec::new();
        let mut j: usize = 0;
        while j < row.len()
            invariant
                0 <= i < g.matrix@.len(),
                row@ == g.matrix@[i as int]@,
                j <= row@.len(),
                new_row@.len() == j,
                forall|l: int| 0 <= l < j ==> (#[trigger] new_row@[l]) == row@[l],
            decreases row@.len() - j,
        {
            new_row.push(row[j]);
            j = j + 1;
        }
        matrix.push(new_row);
        i = i + 1;
    }
    let r = QuantumGate { matrix, scale: g.scale, size: g.size };
    proof {
        assert(r@.mat =~~= g@.mat);
        assert(r@ =~= g@);
    }
    r
}

fn copy_wrapper(w: &QuantumGateWrapper) -> (r: QuantumGateWrapper)
    ensures
        r@ == w@,
{
    let r = QuantumGateWrapper { gate: copy_gate(&w.gate), qubits: copy_usizes(&w.qubits) };
    proof {
        assert(r@ =~= w@);
    }
    r
}

/// Fuses the placements of one step so that each entangled group of the
/// step's partition is acted on by exactly one wide operator.
pub fn combine_gates_in_time_step(
    step: &GatesInTimeStep,
    entangled_groups: &EntangledQubitGroupsInTimeStep,
    n: Ghost<int>,
) -> (r: Result<GatesInTimeStep, QuantumCircuitError>)
    requires
        step@.len() >= 1,
        placements_cover_from(step@, 0, n@),
        n@ <= MAX_QUBITS,
    ensures
        r matches Ok(g) ==> {
            &&& spec_combine_step(step@, entangled_groups@, step@.len() as int) == Ok::<
                Seq<PlacementView>,
                QuantumCircuitError,
            >(g@)
            &&& placements_cover_from(g@, 0, n@)
        },
        r matches Err(e) ==> spec_combine_step(step@, entangled_groups@, step@.len() as int)
            == Err::<Seq<PlacementView>, QuantumCircuitError>(e),
{
    let ghost gs = step@;
    let ghost grs = entangled_groups@;
    let len = step.gates.len();
    let first = &step.gates[0];
    proof {
        assert(first@ == gs[0]);
        assert(gs.subrange(0, len as int) =~~= gs);
    }
    let prev_group: EntangledQubitGroup;
    match find_qubits_that_are_entangled_to_qubit(first.qubits[0], entangled_groups) {
        None => {
            proof {
                lemma_combine_step_err_stays(
                    gs,
                    grs,
                    1,
                    len as int,
                    QuantumCircuitError::InternalInvariantViolation,
                );
            }
            return Err(QuantumCircuitError::InternalInvariantViolation);
        },
        Some(g) => {
            prev_group = g;
        },
    }
    let mut prev_group = prev_group;
    let mut current_step: Vec<QuantumGateWrapper> = Vec::new();
    current_step.push(copy_wrapper(first));
    let ghost cursor0: int = gs[0].qubits[0] + gs[0].qubits.len();
    proof {
        assert(Seq::new(current_step@.len(), |i: int| current_step@[i]@) =~~= seq![gs[0]]);
        assert(placements_cover_from(seq![gs[0]].drop_last(), 0, 0));
        lemma_cover_push(seq![gs[0]].drop_last(), gs[0], 0, 0);
        assert(seq![gs[0]].drop_last().push(gs[0]) =~~= seq![gs[0]]);
    }
    let mut gate_index: usize = 1;
    let ghost mut cursor: int = cursor0;
    while gate_index < len
        invariant
            gs == step@,
            grs == entangled_groups@,
            len == gs.len(),
            n@ <= MAX_QUBITS,
            1 <= gate_index <= len,
            placements_cover_from(gs.subrange(gate_index as int, len as int), cursor, n@),
            cursor <= n@,
            spec_combine_step(gs, grs, gate_index as int) == Ok::<Seq<PlacementView>,
                QuantumCircuitError,
            >(Seq::new(current_step@.len(), |i: int| current_step@[i]@)),
            current_step@.len() >= 1,
            placements_cover_from(Seq::new(current_step@.len(), |i: int| current_step@[i]@), 0, cursor),
            find_group(grs, current_step@.last()@.qubits[0]) == Some(prev_group@),
        decreases len - gate_index,
    {
        let ghost acc = Seq::new(current_step@.len(), |i: int| current_step@[i]@);
        let ghost tail = gs.subrange(gate_index as int, len as int);
        let gate = &step.gates[gate_index];
        proof {
            assert(gate@ == gs[gate_index as int]);
            assert(tail[0] == gs[gate_index as int]);
            assert(acc.last() == current_step@.last()@);
            lemma_cover_last(acc, 0, cursor);
            assert(tail.skip(1) =~~= gs.subrange(gate_index as int + 1, len as int));
        }
        match find_qubits_that_are_entangled_to_qubit(gate.qubits[0], entangled_groups) {
            None => {
                proof {
                    lemma_combine_step_err_stays(
                        gs,
                        grs,
                        gate_index as int + 1,
                        len as int,
                        QuantumCircuitError::InternalInvariantViolation,
                    );
                }
                return Err(QuantumCircuitError::InternalInvariantViolation);
            },
            Some(entangled_group) => {
                if entangled_group == prev_group {
                    let last = match current_step.pop() {
                        Some(l) => l,
                        None => {
                            proof {
                                assert(false);
                            }
                            return Err(QuantumCircuitError::InternalInvariantViolation);
                        },
                    };
                    let ghost lastv = acc.last();
                    let ghost gv = gs[gate_index as int];
                    let ghost fused = fuse_placements(lastv, gv);
                    let fused_gate = last.gate.kronecker(&gate.gate);
                    let mut fused_qubits = copy_usizes(&last.qubits);
                    let mut k: usize = 0;
                    while k < gate.qubits.len()
                        invariant
                            gate@ == gv,
                            k <= gate.qubits@.len(),
                            fused_qubits@ == lastv.qubits + gv.qubits.subrange(0, k as int),
                        decreases gate.qubits@.len() - k,
                    {
                        fused_qubits.push(gate.qubits[k]);
                        proof {
                            assert((lastv.qubits + gv.qubits.subrange(0, k as int)).push(
                                gv.qubits[k as int],
                            ) =~~= lastv.qubits + gv.qubits.subrange(0, k + 1));
                        }
                        k = k + 1;
                    }
                    proof {
                        assert(lastv.qubits + gv.qubits.subrange(0, gv.qubits.len() as int) =~~=
                            lastv.qubits + gv.qubits);
                    }
                    current_step.push(QuantumGateWrapper { gate: fused_gate, qubits: fused_qubits });
                    proof {
                        assert(current_step@.last()@.gate =~= fused.gate);
                        assert(current_step@.last()@ =~= fused);
                        assert(Seq::new(current_step@.len(), |i: int| current_step@[i]@)
                            =~~= acc.drop_last().push(fused));
                        assert(placement_wf(fused)) by {
                            assert forall|kk: int| 0 <= kk < fused.qubits.len() implies (
                            #[trigger] fused.qubits[kk]) as int == fused.qubits[0] + kk by {
                                if kk >= lastv.qubits.len() {
                                    assert(fused.qubits[kk] == gv.qubits[kk - lastv.qubits.len()]);
                                    assert(gv.qubits[kk - lastv.qubits.len()] as int
                                        == gv.qubits[0] + (kk - lastv.qubits.len()));
                                } else {
                                    assert(fused.qubits[kk] == lastv.qubits[kk]);
                                }
                            }
                        }
                        lemma_cover_push(acc.drop_last(), fused, 0, lastv.qubits[0] as int);
                    }
                    proof {
                        cursor = cursor + gv.qubits.len();
                    }
                } else {
                    current_step.push(copy_wrapper(gate));
                    proof {
                        assert(Seq::new(current_step@.len(), |i: int| current_step@[i]@)
                            =~~= acc.push(gs[gate_index as int]));
                        lemma_cover_push(acc, gs[gate_index as int], 0, cursor);
                        cursor = cursor + gs[gate_index as int].qubits.len();
                    }
                    prev_group = entangled_group;
                }
            },
        }
        gate_index = gate_index + 1;
    }
    let r = GatesInTimeStep { gates: current_step };
    proof {
        assert(gs.subrange(len as int, len as int) =~~= Seq::<PlacementView>::empty());
        assert(cursor == n@);
        assert(r@ =~~= Seq::new(r.gates@.len(), |i: int| r.gates@[i]@));
    }
    Ok(r)
}

/// The first placement of a step that acts on the given qubit.
pub open spec fn find_placement(gates: Seq<PlacementView>, q: usize) -> Option<PlacementView>
    decreases gates.len(),
{
    if gates.len() == 0 {
        None
    } else if gates[0].qubits.contains(q) {
        Some(gates[0])
    } else {
        find_placement(gates.skip(1), q)
    }
}

/// The placement of the step that acts on the given qubit; `None` is the
/// defensive outcome for a qubit no placement acts on.
pub fn find_gate_that_acts_upon_qubit(
    qubit: usize,
    gates_in_time_step: &GatesInTimeStep,
) -> (r: Option<QuantumGateWrapper>)
    ensures
        r matches Some(g) ==> find_placement(gates_in_time_step@, qubit) == Some(g@),
        r is None ==> find_placement(gates_in_time_step@, qubit) is None,
{
    let ghost gs = gates_in_time_step@;
    let len = gates_in_time_step.gates.len();
    proof {
        assert(gs.subrange(0, len as int) =~~= gs);
    }
    let mut index: usize = 0;
    while index < len
        invariant
            gs == gates_in_time_step@,
            len == gs.len(),
            index <= len,
            find_placement(gs, qubit) == find_placement(gs.subrange(index as int, len as int), qubit),
        decreases len - index,
    {
        let ghost tail = gs.subrange(index as int, len as int);
        let gate = &gates_in_time_step.gates[index];
        let mut k: usize = 0;
        let mut found = false;
        while k < gate.qubits.len() && !found
            invariant
                0 <= index < len,
                gs == gates_in_time_step@,
                len == gs.len(),
                gate@ == gs[index as int],
                k <= gate.qubits@.len(),
                found <==> exists|j: int| 0 <= j < k && gs[index as int].qubits[j] == qubit,
            decreases gate.qubits@.len() - k,
        {
            proof {
                assert(gate@.qubits[k as int] == gs[index as int].qubits[k as int]);
            }
            if gate.qubits[k] == qubit {
                found = true;
            }
            k = k + 1;
        }
        if found {
            proof {
                assert(gs[index as int].qubits.contains(qubit));
                assert(tail[0] == gs[index as int]);
            }
            return Some(copy_wrapper(gate));
        }
        proof {
            assert(!gs[index as int].qubits.contains(qubit)) by {
                if gs[index as int].qubits.contains(qubit) {
                    let j = choose|j: int|
                        0 <= j < gs[index as int].qubits.len() && gs[index as int].qubits[j]
                            == qubit;
                    assert(exists|j2: int| 0 <= j2 < k && gs[index as int].qubits[j2] == qubit);
                }
            }
            assert(tail.skip(1) =~~= gs.subrange(index + 1, len as int));
        }
        index = index + 1;
    }
    proof {
        assert(gs.subrange(len as int, len as int) =~~= Seq::<PlacementView>::empty());
    }
    None
}

/// The per-step reduction of the first `t` steps; step 0 is kept unreduced.
pub open spec fn spec_combine_upto(
    circ: Seq<Seq<PlacementView>>,
    groups: Seq<Seq<Seq<usize>>>,
    t: int,
) -> Result<Seq<Seq<PlacementView>>, QuantumCircuitError>
    decreases t,
{
    if t <= 1 {
        Ok(seq![circ[0]])
    } else {
        match spec_combine_upto(circ, groups, t - 1) {
            Err(e) => Err(e),
            Ok(acc) => match spec_combine_step(circ[t - 1], groups[t - 1], circ[t - 1].len() as int) {
                Err(e) => Err(e),
                Ok(g) => Ok(acc.push(g)),
            },
        }
    }
}

proof fn lemma_combine_upto_err_stays(
    circ: Seq<Seq<PlacementView>>,
    groups: Seq<Seq<Seq<usize>>>,
    s: int,
    t: int,
    e: QuantumCircuitError,
)
    requires
        1 <= s <= t,
        spec_combine_upto(circ, groups, s) == Err::<Seq<Seq<PlacementView>>, QuantumCircuitError>(
            e,
        ),
    ensures
        spec_combine_upto(circ, groups, t) == Err::<Seq<Seq<PlacementView>>, QuantumCircuitError>(
            e,
        ),
    decreases t - s,
{
    if t > s {
        lemma_combine_upto_err_stays(circ, groups, s, t - 1, e);
    }
}

fn copy_time_step(src: &GatesInTimeStep) -> (r: GatesInTimeStep)
    ensures
        r@ == src@,
{
    let mut gates: Vec<QuantumGateWrapper> = Vec::new();
    let mut i: usize = 0;
    while i < src.gates.len()
        invariant
            i <= src.gates@.len(),
            gates@.len() == i,
            forall|j: int| 0 <= j < i ==> (#[trigger] gates@[j])@ == src@[j],
        decreases src.gates@.len() - i,
    {
        gates.push(copy_wrapper(&src.gates[i]));
        i = i + 1;
    }
    let r = GatesInTimeStep { gates };
    proof {
        assert(r@ =~~= src@);
    }
    r
}

/// Reduces every step after the first against its own partition, so that each
/// entangled group is acted on by one operator per step.
pub fn combine_gates_where_necessary(
    preparsed_circuit: &ParsedCircuit,
    entangled_groups: &Vec<EntangledQubitGroupsInTimeStep>,
    n: Ghost<int>,
) -> (r: Result<ParsedCircuit, QuantumCircuitError>)
    requires
        preparsed_circuit@.len() >= 1,
        entangled_groups@.len() == preparsed_circuit@.len(),
        1 <= n@ <= MAX_QUBITS,
        forall|t: int|
            0 <= t < preparsed_circuit@.len() ==> placements_cover_from(
                #[trigger] preparsed_circuit@[t],
                0,
                n@,
            ),
    ensures
        r matches Ok(c) ==> {
            &&& spec_combine_upto(
                preparsed_circuit@,
                qg_view(entangled_groups@),
                preparsed_circuit@.len() as int,
            ) == Ok::<Seq<Seq<PlacementView>>, QuantumCircuitError>(c@)
            &&& c@.len() == preparsed_circuit@.len()
            &&& forall|t: int| 0 <= t < c@.len() ==> placements_cover_from(#[trigger] c@[t], 0, n@)
        },
        r matches Err(e) ==> spec_combine_upto(
            preparsed_circuit@,
            qg_view(entangled_groups@),
            preparsed_circuit@.len() as int,
        ) == Err::<Seq<Seq<PlacementView>>, QuantumCircuitError>(e),
{
    let ghost cv = preparsed_circuit@;
    let ghost grv = qg_view(entangled_groups@);
    let steps = preparsed_circuit.circuit.len();
    let mut updated_steps: Vec<GatesInTimeStep> = Vec::new();
    updated_steps.push(copy_time_step(&preparsed_circuit.circuit[0]));
    proof {
        assert(Seq::new(updated_steps@.len(), |i: int| updated_steps@[i]@) =~~= seq![cv[0]]);
    }
    let mut step_no: usize = 1;
    while step_no < steps
        invariant
            cv == preparsed_circuit@,
            grv == qg_view(entangled_groups@),
            steps == cv.len() == preparsed_circuit.circuit@.len(),
            entangled_groups@.len() == steps,
            1 <= n@ <= MAX_QUBITS,
            forall|t: int| 0 <= t < steps ==> placements_cover_from(#[trigger] cv[t], 0, n@),
            1 <= step_no <= steps,
            updated_steps@.len() == step_no,
            spec_combine_upto(cv, grv, step_no as int) == Ok::<Seq<Seq<PlacementView>>,
                QuantumCircuitError,
            >(Seq::new(updated_steps@.len(), |i: int| updated_steps@[i]@)),
            forall|t: int|
                0 <= t < step_no ==> placements_cover_from(
                    (#[trigger] updated_steps@[t])@,
                    0,
                    n@,
                ),
        decreases steps - step_no,
    {
        let ghost acc = Seq::new(updated_steps@.len(), |i: int| updated_steps@[i]@);
        let step_ref = &preparsed_circuit.circuit[step_no];
        let groups_ref = &entangled_groups[step_no];
        proof {
            assert(step_ref@ == cv[step_no as int]);
            assert(groups_ref@ == grv[step_no as int]);
            assert(placements_cover_from(cv[step_no as int], 0, n@));
            if cv[step_no as int].len() == 0 {
                assert(n@ == 0);
            }
        }
        match combine_gates_in_time_step(step_ref, groups_ref, n) {
            Err(e) => {
                proof {
                    lemma_combine_upto_err_stays(cv, grv, step_no as int + 1, steps as int, e);
                }
                return Err(e);
            },
            Ok(combined) => {
                updated_steps.push(combined);
                proof {
                    assert(Seq::new(updated_steps@.len(), |i: int| updated_steps@[i]@) =~~= acc
                        .push(updated_steps@[step_no as int]@));
                }
                step_no = step_no + 1;
            },
        }
    }
    let r = ParsedCircuit { circuit: updated_steps };
    proof {
        assert(r@ =~~= Seq::new(updated_steps@.len(), |i: int| updated_steps@[i]@));
    }
    Ok(r)
}

/// The whole structured parse: per-column placements, per-step entangled
/// partitions, and the per-group reduction, composed; the first error aborts.
pub open spec fn spec_build(g: Seq<Seq<Seq<char>>>) -> Result<
    Seq<Seq<PlacementView>>,
    QuantumCircuitError,
> {
    match spec_preparse(g) {
        Err(e) => Err(e),
        Ok(pre) => match spec_entangle_upto(pre, pre.len() as int) {
            Err(e) => Err(e),
            Ok(groups) => spec_combine_upto(pre, groups, pre.len() as int),
        },
    }
}

/// Converts a raw token grid into the structured circuit: parses each column,
/// derives the per-step entangled partitions, and fuses each step's placements
/// so that every entangled group is acted on by exactly one operator.
pub fn build_circuit_from_data(grid: UnparsedCircuit) -> (r: Result<
    ParsedCircuit,
    QuantumCircuitError,
>)
    requires
        grid_wf(grid@),
    ensures
        r matches Ok(c) ==> {
            &&& spec_build(grid@) == Ok::<Seq<Seq<PlacementView>>, QuantumCircuitError>(c@)
            &&& c@.len() == grid@[0].len()
            &&& forall|t: int|
                0 <= t < c@.len() ==> placements_cover_from(#[trigger] c@[t], 0, grid@.len() as int)
        },
        r matches Err(e) ==> spec_build(grid@) == Err::<Seq<Seq<PlacementView>>,
            QuantumCircuitError,
        >(e),
{
    let gates_parsed_individually = match parse_gates_individually(&grid) {
        Err(e) => {
            return Err(e);
        },
        Ok(c) => c,
    };
    let entangled_groups = match entangle_qubits(&gates_parsed_individually) {
        Err(e) => {
            return Err(e);
        },
        Ok(v) => v,
    };
    let rows = grid.circuit.len();
    proof {
        assert(rows == grid@.len());
    }
    match combine_gates_where_necessary(
        &gates_parsed_individually,
        &entangled_groups,
        Ghost(rows as int),
    ) {
        Err(e) => Err(e),
        Ok(c) => Ok(c),
    }
}

/// The groups cover rows q..n exactly, in ascending contiguous runs.
pub open spec fn groups_cover_from(gs: Seq<Seq<usize>>, q: int, n: int) -> bool
    decreases gs.len(),
{
    if gs.len() == 0 {
        q == n
    } else {
        &&& gs[0].len() >= 1
        &&& forall|k: int| 0 <= k < gs[0].len() ==> (#[trigger] gs[0][k]) as int == q + k
        &&& q + gs[0].len() <= n
        &&& groups_cover_from(gs.skip(1), q + gs[0].len() as int, n)
    }
}

proof fn lemma_placements_to_groups_cover(
    ps: Seq<PlacementView>,
    gs: Seq<Seq<usize>>,
    q: int,
    n: int,
)
    requires
        placements_cover_from(ps, q, n),
        gs.len() == ps.len(),
        forall|i: int| 0 <= i < ps.len() ==> #[trigger] gs[i] == ps[i].qubits,
    ensures
        groups_cover_from(gs, q, n),
    decreases ps.len(),
{
    if ps.len() > 0 {
        assert forall|i: int| 0 <= i < ps.skip(1).len() implies #[trigger] gs.skip(1)[i] == ps.skip(
            1,
        )[i].qubits by {
            assert(gs.skip(1)[i] == gs[i + 1]);
            assert(ps.skip(1)[i] == ps[i + 1]);
        }
        lemma_placements_to_groups_cover(ps.skip(1), gs.skip(1), q + ps[0].qubits.len(), n);
    }
}

proof fn lemma_merge_cover(
    gs: Seq<Seq<usize>>,
    g1: Seq<usize>,
    g2: Seq<usize>,
    q: int,
    n: int,
    gs2: Seq<Seq<usize>>,
)
    requires
        groups_cover_from(gs, q, n),
        spec_merge_groups(gs, g1, g2) == Ok::<Seq<Seq<usize>>, QuantumCircuitError>(gs2),
    ensures
        groups_cover_from(gs2, q, n),
    decreases gs.len(),
{
    if gs.len() == 0 {
        assert(gs2 =~~= Seq::<Seq<usize>>::empty());
    } else if gs[0] == g1 {
        assert(gs.len() >= 2 && gs[1] == g2);
        let rest = spec_merge_groups(gs.skip(2), g1, g2)->Ok_0;
        assert(gs2 == seq![g1 + g2] + rest);
        assert(gs.skip(1)[0] == gs[1]);
        assert(groups_cover_from(gs.skip(1), q + gs[0].len() as int, n));
        assert(groups_cover_from(gs.skip(1).skip(1), q + gs[0].len() + gs.skip(1)[0].len(), n));
        assert(gs.skip(1).skip(1) =~~= gs.skip(2));
        assert(groups_cover_from(gs.skip(2), q + g1.len() + g2.len(), n));
        lemma_merge_cover(gs.skip(2), g1, g2, q + g1.len() + g2.len(), n, rest);
        assert((seq![g1 + g2] + rest).skip(1) =~~= rest);
        assert((seq![g1 + g2] + rest)[0] == g1 + g2);
        assert forall|k: int| 0 <= k < (g1 + g2).len() implies (#[trigger] (g1 + g2)[k]) as int == q
            + k by {
            if k < g1.len() {
                assert((g1 + g2)[k] == g1[k]);
                assert(gs[0][k] as int == q + k);
            } else {
                assert((g1 + g2)[k] == g2[k - g1.len()]);
                assert(gs.skip(1)[0][k - g1.len()] as int == (q + g1.len()) + (k - g1.len()));
            }
        }
        assert(groups_cover_from(gs2, q, n));
    } else {
        let rest = spec_merge_groups(gs.skip(1), g1, g2)->Ok_0;
        assert(gs2 == seq![gs[0]] + rest);
        lemma_merge_cover(gs.skip(1), g1, g2, q + gs[0].len(), n, rest);
        assert((seq![gs[0]] + rest).skip(1) =~~= rest);
        assert((seq![gs[0]] + rest)[0] == gs[0]);
        assert(groups_cover_from(gs2, q, n));
    }
}

proof fn lemma_entangle_step_cover(
    prev: Seq<Seq<usize>>,
    gates: Seq<PlacementView>,
    k: int,
    n: int,
)
    requires
        groups_cover_from(prev, 0, n),
        spec_entangle_step(prev, gates, k) is Ok,
    ensures
        groups_cover_from(spec_entangle_step(prev, gates, k)->Ok_0, 0, n),
    decreases k,
{
    if k <= 0 {
    } else {
        assert(spec_entangle_step(prev, gates, k - 1) is Ok);
        lemma_entangle_step_cover(prev, gates, k - 1, n);
        let cur = spec_entangle_step(prev, gates, k - 1)->Ok_0;
        let g = gates[k - 1];
        if g.qubits.len() == 2 {
            match (find_group(cur, g.qubits[0]), find_group(cur, g.qubits[1])) {
                (Some(ga), Some(gb)) => {
                    if ga != gb {
                        lemma_merge_cover(
                            cur,
                            ga,
                            gb,
                            0,
                            n,
                            spec_entangle_step(prev, gates, k)->Ok_0,
                        );
                    }
                },
                _ => {
                    assert(false);
                },
            }
        }
    }
}

pub(crate) proof fn lemma_entangle_upto_cover(circ: Seq<Seq<PlacementView>>, n: int, t: int)
    requires
        circ.len() >= 1,
        1 <= t <= circ.len(),
        forall|tt: int| 0 <= tt < circ.len() ==> placements_cover_from(#[trigger] circ[tt], 0, n),
        spec_entangle_upto(circ, t) is Ok,
    ensures
        spec_entangle_upto(circ, t)->Ok_0.len() == t,
        forall|tt: int|
            0 <= tt < t ==> groups_cover_from(#[trigger] spec_entangle_upto(circ, t)->Ok_0[tt], 0, n),
    decreases t,
{
    if t <= 1 {
        let gs = step0_groups(circ);
        assert(spec_entangle_upto(circ, t)->Ok_0 == seq![gs]);
        assert forall|i: int| 0 <= i < circ[0].len() implies #[trigger] gs[i]
            == circ[0][i].qubits by {}
        lemma_placements_to_groups_cover(circ[0], gs, 0, n);
    } else {
        assert(spec_entangle_upto(circ, t - 1) is Ok);
        lemma_entangle_upto_cover(circ, n, t - 1);
        let acc = spec_entangle_upto(circ, t - 1)->Ok_0;
        assert(spec_entangle_step(acc.last(), circ[t - 1], circ[t - 1].len() as int) is Ok);
        lemma_entangle_step_cover(acc.last(), circ[t - 1], circ[t - 1].len() as int, n);
        assert forall|tt: int|
            0 <= tt < t implies groups_cover_from(
            #[trigger] spec_entangle_upto(circ, t)->Ok_0[tt],
            0,
            n,
        ) by {
            if tt < t - 1 {
                assert(spec_entangle_upto(circ, t)->Ok_0[tt] == acc[tt]);
            } else if tt == t - 1 {
                assert(spec_entangle_upto(circ, t)->Ok_0[tt] == spec_entangle_step(
                    acc.last(),
                    circ[t - 1],
                    circ[t - 1].len() as int,
                )->Ok_0);
            }
        }
    }
}

pub(crate) proof fn lemma_cover_elements(gs: Seq<Seq<usize>>, q: int, n: int)
    requires
        groups_cover_from(gs, q, n),
    ensures
        forall|i: int, k: int|
            0 <= i < gs.len() && 0 <= k < gs[i].len() ==> q <= (#[trigger] gs[i][k]) as int
                && (gs[i][k] as int) < n,
    decreases gs.len(),
{
    if gs.len() > 0 {
        lemma_cover_elements(gs.skip(1), q + gs[0].len(), n);
        assert forall|i: int, k: int|
            0 <= i < gs.len() && 0 <= k < gs[i].len() implies q <= (#[trigger] gs[i][k]) as int
            && (gs[i][k] as int) < n by {
            if i == 0 {
                assert(gs[0][k] as int == q + k);
            } else {
                assert(gs[i] == gs.skip(1)[i - 1]);
                assert(q + gs[0].len() <= (gs.skip(1)[i - 1][k]) as int);
            }
        }
    }
}

/// Some group holds row x.
pub open spec fn in_some_group(gs: Seq<Seq<usize>>, x: usize) -> bool {
    exists|i: int| 0 <= i < gs.len() && (#[trigger] gs[i]).contains(x)
}

/// Exactly one group holds each row q..n; no row outside appears.
pub open spec fn groups_partition(gs: Seq<Seq<usize>>, n: int) -> bool {
    &&& forall|i: int, x: usize|
        0 <= i < gs.len() && (#[trigger] gs[i].contains(x)) ==> 0 <= (x as int) < n
    &&& forall|x: usize| 0 <= (x as int) < n ==> #[trigger] in_some_group(gs, x)
    &&& forall|i: int, j: int, x: usize|
        0 <= i < gs.len() && 0 <= j < gs.len() && i != j && (#[trigger] gs[i].contains(x)) ==> !(
        #[trigger] gs[j].contains(x))
}

pub(crate) proof fn lemma_cover_partition(gs: Seq<Seq<usize>>, q: int, n: int)
    requires
        groups_cover_from(gs, q, n),
        0 <= q,
    ensures
        forall|i: int, x: usize|
            0 <= i < gs.len() && (#[trigger] gs[i].contains(x)) ==> q <= (x as int) < n,
        forall|x: usize| q <= (x as int) && (x as int) < n ==> #[trigger] in_some_group(gs, x),
        forall|i: int, j: int, x: usize|
            0 <= i < gs.len() && 0 <= j < gs.len() && i != j && (#[trigger] gs[i].contains(x))
                ==> !(#[trigger] gs[j].contains(x)),
    decreases gs.len(),
{
    lemma_cover_elements(gs, q, n);
    if gs.len() > 0 {
        lemma_cover_partition(gs.skip(1), q + gs[0].len(), n);
        lemma_cover_elements(gs.skip(1), q + gs[0].len(), n);
        // membership bounds
        assert forall|i: int, x: usize|
            0 <= i < gs.len() && (#[trigger] gs[i].contains(x)) implies q <= (x as int) < n by {
            let k = choose|k: int| 0 <= k < gs[i].len() && gs[i][k] == x;
            assert(q <= gs[i][k] as int && (gs[i][k] as int) < n);
        }
        // completeness
        assert forall|x: usize| q <= (x as int) && (x as int) < n implies #[trigger] in_some_group(
            gs,
            x,
        ) by {
            if (x as int) < q + gs[0].len() {
                assert(gs[0][(x as int) - q] == x);
                assert(gs[0].contains(x));
            } else {
                assert(in_some_group(gs.skip(1), x));
                let i = choose|i: int|
                    0 <= i < gs.skip(1).len() && (#[trigger] gs.skip(1)[i]).contains(x);
                assert(gs[i + 1].contains(x));
            }
        }
        // disjointness
        assert forall|i: int, j: int, x: usize|
            0 <= i < gs.len() && 0 <= j < gs.len() && i != j && (#[trigger] gs[i].contains(x))
            implies !(#[trigger] gs[j].contains(x)) by {
            if gs[j].contains(x) {
                let ki = choose|k: int| 0 <= k < gs[i].len() && gs[i][k] == x;
                let kj = choose|k: int| 0 <= k < gs[j].len() && gs[j][k] == x;
                if i == 0 {
                    assert((x as int) < q + gs[0].len());
                    assert(gs[j] == gs.skip(1)[j - 1]);
                    assert(q + gs[0].len() <= gs.skip(1)[j - 1][kj] as int);
                } else if j == 0 {
                    assert((x as int) < q + gs[0].len());
                    assert(gs[i] == gs.skip(1)[i - 1]);
                    assert(q + gs[0].len() <= gs.skip(1)[i - 1][ki] as int);
                } else {
                    assert(gs[i] == gs.skip(1)[i - 1]);
                    assert(gs[j] == gs.skip(1)[j - 1]);
                }
            }
        }
    }
}

/// Law: at every time step, the entangled groups partition the qubit rows:
/// their union is 0..n and they are pairwise disjoint.
pub proof fn lemma_entangled_groups_partition(
    circ: Seq<Seq<PlacementView>>,
    n: int,
    groups: Seq<Seq<Seq<usize>>>,
)
    requires
        circ.len() >= 1,
        0 <= n,
        forall|t: int| 0 <= t < circ.len() ==> placements_cover_from(#[trigger] circ[t], 0, n),
        spec_entangle_upto(circ, circ.len() as int) == Ok::<Seq<Seq<Seq<usize>>>,
            QuantumCircuitError,
        >(groups),
    ensures
        groups.len() == circ.len(),
        forall|t: int| 0 <= t < groups.len() ==> groups_partition(#[trigger] groups[t], n),
{
    lemma_entangle_upto_cover(circ, n, circ.len() as int);
    assert forall|t: int| 0 <= t < groups.len() implies groups_partition(
        #[trigger] groups[t],
        n,
    ) by {
        assert(groups_cover_from(groups[t], 0, n));
        lemma_cover_partition(groups[t], 0, n);
    }
}

/// Law: parsing is a pure function of the grid: equal grids give identical
/// structured circuits (or identical errors) on every call, since
/// `build_circuit_from_data` returns exactly `spec_build` of its input.
pub proof fn lemma_parsing_deterministic(g1: Seq<Seq<Seq<char>>>, g2: Seq<Seq<Seq<char>>>)
    requires
        g1 == g2,
    ensures
        spec_build(g1) == spec_build(g2),
{
}

proof fn lemma_find_group_membership(gs: Seq<Seq<usize>>, x: usize)
    requires
        find_group(gs, x) is Some,
    ensures
        exists|i: int|
            0 <= i < gs.len() && gs[i] == find_group(gs, x)->Some_0 && (#[trigger] gs[i]).contains(
                x,
            ),
    decreases gs.len(),
{
    if gs.len() > 0 {
        if gs[0].contains(x) {
            assert(gs[0] == find_group(gs, x)->Some_0 && gs[0].contains(x));
        } else {
            lemma_find_group_membership(gs.skip(1), x);
            let i = choose|i: int|
                0 <= i < gs.skip(1).len() && gs.skip(1)[i] == find_group(gs.skip(1), x)->Some_0
                    && (#[trigger] gs.skip(1)[i]).contains(x);
            assert(gs[i + 1] == find_group(gs, x)->Some_0 && gs[i + 1].contains(x));
        }
    }
}

proof fn lemma_merge_keeps(
    gs: Seq<Seq<usize>>,
    g1: Seq<usize>,
    g2: Seq<usize>,
    v: Seq<usize>,
)
    requires
        spec_merge_groups(gs, g1, g2) is Ok,
        gs.contains(v),
        v != g1,
        v != g2,
    ensures
        spec_merge_groups(gs, g1, g2)->Ok_0.contains(v),
    decreases gs.len(),
{
    let idx = choose|i: int| 0 <= i < gs.len() && gs[i] == v;
    if gs[0] == g1 {
        let rest = spec_merge_groups(gs.skip(2), g1, g2)->Ok_0;
        assert(idx >= 2);
        assert(gs.skip(2)[idx - 2] == v);
        assert(gs.skip(2).contains(v));
        lemma_merge_keeps(gs.skip(2), g1, g2, v);
        let j = choose|j: int| 0 <= j < rest.len() && rest[j] == v;
        assert((seq![g1 + g2] + rest)[j + 1] == v);
    } else if gs[0] == v {
        let rest = spec_merge_groups(gs.skip(1), g1, g2)->Ok_0;
        assert((seq![gs[0]] + rest)[0] == v);
    } else {
        let rest = spec_merge_groups(gs.skip(1), g1, g2)->Ok_0;
        assert(gs.skip(1)[idx - 1] == v);
        assert(gs.skip(1).contains(v));
        lemma_merge_keeps(gs.skip(1), g1, g2, v);
        let j = choose|j: int| 0 <= j < rest.len() && rest[j] == v;
        assert((seq![gs[0]] + rest)[j + 1] == v);
    }
}

proof fn lemma_entangle_step_keeps_singleton(
    prev: Seq<Seq<usize>>,
    gates: Seq<PlacementView>,
    k: int,
    n: int,
    q: usize,
)
    requires
        k <= gates.len(),
        groups_cover_from(prev, 0, n),
        spec_entangle_step(prev, gates, k) is Ok,
        prev.contains(seq![q]),
        forall|i: int|
            0 <= i < gates.len() && (#[trigger] gates[i].qubits).contains(q)
                ==> gates[i].qubits.len() == 1,
    ensures
        spec_entangle_step(prev, gates, k)->Ok_0.contains(seq![q]),
    decreases k,
{
    if k <= 0 {
    } else {
        assert(spec_entangle_step(prev, gates, k - 1) is Ok);
        lemma_entangle_step_keeps_singleton(prev, gates, k - 1, n, q);
        lemma_entangle_step_cover(prev, gates, k - 1, n);
        let cur = spec_entangle_step(prev, gates, k - 1)->Ok_0;
        assert(groups_cover_from(cur, 0, n));
        let g = gates[k - 1];
        if g.qubits.len() == 2 {
            let a = g.qubits[0];
            let b = g.qubits[1];
            assert(g.qubits.contains(a)) by {
                assert(g.qubits[0] == a);
            }
            assert(g.qubits.contains(b)) by {
                assert(g.qubits[1] == b);
            }
            assert(!g.qubits.contains(q));
            assert(a != q && b != q);
            match (find_group(cur, a), find_group(cur, b)) {
                (Some(ga), Some(gb)) => {
                    if ga != gb {
                        lemma_cover_partition(cur, 0, n);
                        let jq = choose|j: int| 0 <= j < cur.len() && cur[j] == seq![q];
                        assert(seq![q][0] == q);
                        assert(seq![q].contains(q));
                        assert(cur[jq].contains(q));
                        assert(!ga.contains(q)) by {
                            if ga.contains(q) {
                                lemma_find_group_membership(cur, a);
                                let ia = choose|i: int|
                                    0 <= i < cur.len() && cur[i] == ga && (
                                    #[trigger] cur[i]).contains(a);
                                if ia != jq {
                                    assert(cur[ia].contains(q));
                                    assert(!cur[jq].contains(q));
                                } else {
                                    assert(ga == seq![q]);
                                    assert(seq![q].contains(a));
                                    assert(seq![q][0] == q);
                                }
                            }
                        }
                        assert(!gb.contains(q)) by {
                            if gb.contains(q) {
                                lemma_find_group_membership(cur, b);
                                let ib = choose|i: int|
                                    0 <= i < cur.len() && cur[i] == gb && (
                                    #[trigger] cur[i]).contains(b);
                                if ib != jq {
                                    assert(cur[ib].contains(q));
                                    assert(!cur[jq].contains(q));
                                } else {
                                    assert(gb == seq![q]);
                                    assert(seq![q].contains(b));
                                    assert(seq![q][0] == q);
                                }
                            }
                        }
                        assert(seq![q].contains(q));
                        assert(seq![q] != ga && seq![q] != gb);
                        lemma_merge_keeps(cur, ga, gb, seq![q]);
                    }
                },
                _ => {
                    assert(false);
                },
            }
        }
    }
}

/// Law: a qubit row that only 1-qubit placements ever act on keeps its own
/// singleton group in the partition of every time step; merges never absorb
/// it.
pub proof fn lemma_untouched_qubit_stays_singleton(
    circ: Seq<Seq<PlacementView>>,
    n: int,
    groups: Seq<Seq<Seq<usize>>>,
    q: usize,
    t: int,
)
    requires
        circ.len() >= 1,
        0 <= n,
        forall|tt: int| 0 <= tt < circ.len() ==> placements_cover_from(#[trigger] circ[tt], 0, n),
        spec_entangle_upto(circ, circ.len() as int) == Ok::<Seq<Seq<Seq<usize>>>,
            QuantumCircuitError,
        >(groups),
        0 <= q as int && (q as int) < n,
        forall|tt: int, i: int|
            0 <= tt < circ.len() && 0 <= i < circ[tt].len() && (
            #[trigger] circ[tt][i].qubits).contains(q) ==> circ[tt][i].qubits.len() == 1,
        0 <= t < groups.len(),
    ensures
        groups[t].contains(seq![q]),
    decreases t,
{
    lemma_entangle_upto_cover(circ, n, circ.len() as int);
    if t == 0 {
        let gs0 = step0_groups(circ);
        assert(groups[0] == gs0) by {
            lemma_upto_prefix(circ, 1, circ.len() as int);
        }
        assert forall|i: int| 0 <= i < circ[0].len() implies #[trigger] gs0[i]
            == circ[0][i].qubits by {}
        lemma_placements_to_groups_cover(circ[0], gs0, 0, n);
        lemma_cover_partition(gs0, 0, n);
        assert(in_some_group(gs0, q));
        let i = choose|i: int| 0 <= i < gs0.len() && (#[trigger] gs0[i]).contains(q);
        assert(circ[0][i].qubits.contains(q));
        assert(circ[0][i].qubits.len() == 1);
        lemma_cover_all_placements_wf(circ[0], 0, n);
        assert(circ[0][i].qubits =~~= seq![q]) by {
            let k = choose|k: int| 0 <= k < circ[0][i].qubits.len() && circ[0][i].qubits[k] == q;
            assert(k == 0);
        }
        assert(gs0[i] == seq![q]);
    } else {
        lemma_untouched_qubit_stays_singleton(circ, n, groups, q, t - 1);
        assert(spec_entangle_upto(circ, t + 1) is Ok && spec_entangle_upto(circ, t + 1)->Ok_0
            == groups.subrange(0, t + 1)) by {
            lemma_upto_prefix(circ, t + 1, circ.len() as int);
        }
        let accprev = spec_entangle_upto(circ, t)->Ok_0;
        assert(accprev == groups.subrange(0, t)) by {
            lemma_upto_prefix(circ, t, circ.len() as int);
        }
        assert(accprev.last() == groups[t - 1]);
        assert(spec_entangle_step(groups[t - 1], circ[t], circ[t].len() as int) is Ok);
        assert(groups_cover_from(groups[t - 1], 0, n));
        assert forall|i: int|
            0 <= i < circ[t as int].len() && (#[trigger] circ[t as int][i].qubits).contains(q)
            implies circ[t as int][i].qubits.len() == 1 by {}
        lemma_entangle_step_keeps_singleton(
            groups[t - 1],
            circ[t],
            circ[t].len() as int,
            n,
            q,
        );
        assert(spec_entangle_upto(circ, t + 1)->Ok_0 == accprev.push(
            spec_entangle_step(accprev.last(), circ[t], circ[t].len() as int)->Ok_0,
        ));
        assert(groups.subrange(0, t + 1)[t] == groups[t]);
        assert(groups[t] == spec_entangle_step(groups[t - 1], circ[t], circ[t].len() as int)->Ok_0);
    }
}

proof fn lemma_upto_len(circ: Seq<Seq<PlacementView>>, t: int)
    requires
        1 <= t,
        spec_entangle_upto(circ, t) is Ok,
    ensures
        spec_entangle_upto(circ, t)->Ok_0.len() == t,
    decreases t,
{
    if t > 1 {
        assert(spec_entangle_upto(circ, t - 1) is Ok);
        lemma_upto_len(circ, t - 1);
    }
}

/// An `Ok` entangle run restricted to fewer steps is its prefix.
pub(crate) proof fn lemma_upto_prefix(circ: Seq<Seq<PlacementView>>, s: int, t: int)
    requires
        1 <= s <= t,
        spec_entangle_upto(circ, t) is Ok,
    ensures
        spec_entangle_upto(circ, s) is Ok,
        spec_entangle_upto(circ, s)->Ok_0 == spec_entangle_upto(circ, t)->Ok_0.subrange(0, s),
        spec_entangle_upto(circ, t)->Ok_0.len() == t,
    decreases t,
{
    lemma_upto_len(circ, t);
    if s == t {
        assert(spec_entangle_upto(circ, t)->Ok_0.subrange(0, s) =~~= spec_entangle_upto(
            circ,
            s,
        )->Ok_0);
    } else {
        assert(spec_entangle_upto(circ, t - 1) is Ok);
        lemma_upto_prefix(circ, s, t - 1);
        let accm = spec_entangle_upto(circ, t - 1)->Ok_0;
        assert(spec_entangle_upto(circ, t)->Ok_0.subrange(0, t - 1) =~~= accm);
        assert(accm.subrange(0, s) == spec_entangle_upto(circ, s)->Ok_0);
        assert(spec_entangle_upto(circ, t)->Ok_0.subrange(0, s) =~~= accm.subrange(0, s));
    }
}

/// Every placement of a covering step is well-formed.
pub proof fn lemma_cover_all_placements_wf(ps: Seq<PlacementView>, q0: int, n: int)
    requires
        placements_cover_from(ps, q0, n),
    ensures
        forall|i: int| 0 <= i < ps.len() ==> placement_wf(#[trigger] ps[i]),
    decreases ps.len(),
{
    if ps.len() > 0 {
        lemma_cover_all_placements_wf(ps.skip(1), q0 + ps[0].qubits.len(), n);
        assert forall|i: int| 0 <= i < ps.len() implies placement_wf(#[trigger] ps[i]) by {
            if i > 0 {
                assert(ps[i] == ps.skip(1)[i - 1]);
            }
        }
    }
}

impl PartialEq for ParsedCircuit {
    fn eq(&self, other: &ParsedCircuit) -> (r: bool) {
        if self.circuit.len() != other.circuit.len() {
            proof {
                assert(self@.len() != other@.len());
            }
            return false;
        }
        let mut i: usize = 0;
        while i < self.circuit.len()
            invariant
                self.circuit@.len() == other.circuit@.len(),
                i <= self.circuit@.len(),
                forall|j: int| 0 <= j < i ==> self.circuit@[j]@ == other.circuit@[j]@,
            decreases self.circuit@.len() - i,
        {
            if !(self.circuit[i] == other.circuit[i]) {
                proof {
                    assert(self@[i as int] != other@[i as int]);
                }
                return false;
            }
            i = i + 1;
        }
        proof {
            assert(self@ =~~= other@);
        }
        true
    }
}

impl vstd::std_specs::cmp::PartialEqSpecImpl for ParsedCircuit {
    open spec fn obeys_eq_spec() -> bool {
        true
    }

    open spec fn eq_spec(&self, other: &ParsedCircuit) -> bool {
        self@ == other@
    }
}

impl PartialEq for EntangledQubitGroupsInTimeStep {
    fn eq(&self, other: &EntangledQubitGroupsInTimeStep) -> (r: bool) {
        if self.groups.len() != other.groups.len() {
            proof {
                assert(self@.len() != other@.len());
            }
            return false;
        }
        let mut i: usize = 0;
        while i < self.groups.len()
            invariant
                self.groups@.len() == other.groups@.len(),
                i <= self.groups@.len(),
                forall|j: int| 0 <= j < i ==> self.groups@[j]@ == other.groups@[j]@,
            decreases self.groups@.len() - i,
        {
            if !(self.groups[i] == other.groups[i]) {
                proof {
                    assert(self@[i as int] != other@[i as int]);
                }
                return false;
            }
            i = i + 1;
        }
        proof {
            assert(self@ =~~= other@);
        }
        true
    }
}

impl vstd::std_specs::cmp::PartialEqSpecImpl for EntangledQubitGroupsInTimeStep {
    open spec fn obeys_eq_spec() -> bool {
        true
    }

    open spec fn eq_spec(&self, other: &EntangledQubitGroupsInTimeStep) -> bool {
        self@ == other@
    }
}

proof fn lemma_merge_no_occurrence(gs: Seq<Seq<usize>>, g1: Seq<usize>, g2: Seq<usize>)
    requires
        forall|i: int| 0 <= i < gs.len() ==> #[trigger] gs[i] != g1,
    ensures
        spec_merge_groups(gs, g1, g2) is Ok,
    decreases gs.len(),
{
    if gs.len() > 0 {
        assert forall|i: int| 0 <= i < gs.skip(1).len() implies #[trigger] gs.skip(1)[i] != g1 by {
            assert(gs.skip(1)[i] == gs[i + 1]);
        }
        lemma_merge_no_occurrence(gs.skip(1), g1, g2);
    }
}

pub(crate) proof fn lemma_cover_find_some(gs: Seq<Seq<usize>>, q0: int, n: int, x: usize)
    requires
        groups_cover_from(gs, q0, n),
        q0 <= x as int,
        (x as int) < n,
    ensures
        find_group(gs, x) is Some,
    decreases gs.len(),
{
    assert(gs.len() > 0);
    if gs[0].contains(x) {
    } else {
        assert((x as int) >= q0 + gs[0].len()) by {
            if (x as int) < q0 + gs[0].len() {
                assert(gs[0][(x as int) - q0] == x);
            }
        }
        lemma_cover_find_some(gs.skip(1), q0 + gs[0].len(), n, x);
    }
}

proof fn lemma_merge_ok(gs: Seq<Seq<usize>>, q0: int, n: int, x: usize)
    requires
        groups_cover_from(gs, q0, n),
        q0 <= x as int,
        (x as int) + 1 < n,
        x < usize::MAX,
        find_group(gs, x) is Some,
        find_group(gs, (x + 1) as usize) is Some,
        find_group(gs, x)->Some_0 != find_group(gs, (x + 1) as usize)->Some_0,
    ensures
        spec_merge_groups(
            gs,
            find_group(gs, x)->Some_0,
            find_group(gs, (x + 1) as usize)->Some_0,
        ) is Ok,
    decreases gs.len(),
{
    let ga = find_group(gs, x)->Some_0;
    let gb = find_group(gs, (x + 1) as usize)->Some_0;
    let y = (x + 1) as usize;
    assert(gs.len() > 0);
    if gs[0].contains(x) {
        assert(ga == gs[0]);
        // gs[0] cannot also hold x + 1, else the two groups were equal.
        assert(!gs[0].contains(y)) by {
            if gs[0].contains(y) {
                assert(gb == gs[0]);
            }
        }
        let kx = choose|k: int| 0 <= k < gs[0].len() && gs[0][k] == x;
        assert((x as int) == q0 + kx);
        assert((y as int) == q0 + gs[0].len()) by {
            if (y as int) < q0 + gs[0].len() {
                assert(gs[0][(y as int) - q0] == y);
            }
        }
        assert(groups_cover_from(gs.skip(1), q0 + gs[0].len() as int, n));
        assert(gs.skip(1).len() > 0) by {
            if gs.skip(1).len() == 0 {
                assert(q0 + gs[0].len() == n);
            }
        }
        assert(gs.skip(1)[0][0] == y);
        assert(gs.skip(1)[0].contains(y));
        assert(find_group(gs.skip(1), y) == Some(gs.skip(1)[0]));
        assert(gb == gs[1]);
        assert(gs.skip(1).skip(1) =~~= gs.skip(2));
        assert(groups_cover_from(
            gs.skip(2),
            q0 + gs[0].len() + gs.skip(1)[0].len(),
            n,
        ));
        lemma_cover_elements(gs.skip(2), q0 + gs[0].len() + gs.skip(1)[0].len(), n);
        assert forall|i: int| 0 <= i < gs.skip(2).len() implies #[trigger] gs.skip(2)[i] != ga by {
            if gs.skip(2)[i] == ga {
                assert(gs.skip(2)[i].len() >= 1) by {
                    assert(ga.len() >= 1);
                }
                assert(gs.skip(2)[i][0] == ga[0]);
                assert(ga[0] as int == q0);
                assert(q0 + gs[0].len() + gs.skip(1)[0].len() <= gs.skip(2)[i][0] as int);
            }
        }
        lemma_merge_no_occurrence(gs.skip(2), ga, gb);
        assert(spec_merge_groups(gs.skip(2), ga, gb) is Ok);
        assert(spec_merge_groups(gs, ga, gb) is Ok);
    } else {
        assert(!gs[0].contains(y)) by {
            if gs[0].contains(y) {
                let ky = choose|k: int| 0 <= k < gs[0].len() && gs[0][k] == y;
                assert((y as int) == q0 + ky);
                if ky == 0 {
                    assert((x as int) < q0);
                } else {
                    assert(gs[0][ky - 1] == x);
                }
            }
        }
        assert((x as int) >= q0 + gs[0].len()) by {
            if (x as int) < q0 + gs[0].len() {
                assert(gs[0][(x as int) - q0] == x);
            }
        }
        lemma_merge_ok(gs.skip(1), q0 + gs[0].len(), n, x);
        assert(gs[0] != ga) by {
            lemma_find_group_membership(gs, x);
            let ia = choose|i: int|
                0 <= i < gs.len() && gs[i] == ga && (#[trigger] gs[i]).contains(x);
            if gs[0] == ga {
                assert(gs[0].contains(x));
            }
        }
        assert(spec_merge_groups(gs, ga, gb) is Ok);
    }
}

proof fn lemma_entangle_step_ok(
    prev: Seq<Seq<usize>>,
    gates: Seq<PlacementView>,
    k: int,
    n: int,
)
    requires
        groups_cover_from(prev, 0, n),
        0 <= k <= gates.len(),
        n <= usize::MAX,
        forall|i: int| 0 <= i < gates.len() ==> placement_wf(#[trigger] gates[i]),
        forall|i: int, kk: int|
            0 <= i < gates.len() && 0 <= kk < gates[i].qubits.len() ==> 0 <= (
            #[trigger] gates[i].qubits[kk]) as int && (gates[i].qubits[kk] as int) < n,
    ensures
        spec_entangle_step(prev, gates, k) is Ok,
    decreases k,
{
    if k > 0 {
        lemma_entangle_step_ok(prev, gates, k - 1, n);
        lemma_entangle_step_cover(prev, gates, k - 1, n);
        let cur = spec_entangle_step(prev, gates, k - 1)->Ok_0;
        let g = gates[k - 1];
        if g.qubits.len() == 2 {
            let x = g.qubits[0];
            let y = g.qubits[1];
            assert(y as int == x as int + 1) by {
                assert(g.qubits[1] as int == g.qubits[0] + 1);
            }
            assert(0 <= x as int && (x as int) + 1 < n);
            lemma_cover_find_some(cur, 0, n, x);
            lemma_cover_find_some(cur, 0, n, y);
            let ga = find_group(cur, x)->Some_0;
            let gb = find_group(cur, y)->Some_0;
            if ga != gb {
                assert(y == (x + 1) as usize);
                lemma_merge_ok(cur, 0, n, x);
            }
        }
    }
}

/// The tracker's defensive lookup is unreachable on a well-formed parsed
/// circuit: every step's entanglement pass succeeds, and so does the whole
/// run.
pub proof fn lemma_entangle_never_fails(circ: Seq<Seq<PlacementView>>, n: int, t: int)
    requires
        circ.len() >= 1,
        0 <= n <= usize::MAX,
        forall|tt: int| 0 <= tt < circ.len() ==> placements_cover_from(#[trigger] circ[tt], 0, n),
        1 <= t <= circ.len(),
    ensures
        spec_entangle_upto(circ, t) is Ok,
        groups_cover_from(spec_entangle_upto(circ, t)->Ok_0.last(), 0, n),
    decreases t,
{
    if t <= 1 {
        let gs = step0_groups(circ);
        assert forall|i: int| 0 <= i < circ[0].len() implies #[trigger] gs[i]
            == circ[0][i].qubits by {}
        lemma_placements_to_groups_cover(circ[0], gs, 0, n);
        assert(spec_entangle_upto(circ, t)->Ok_0.last() == gs);
    } else {
        lemma_entangle_never_fails(circ, n, t - 1);
        let acc = spec_entangle_upto(circ, t - 1)->Ok_0;
        let gates = circ[t - 1];
        lemma_cover_all_placements_wf(gates, 0, n);
        let ghost qv = Seq::new(gates.len(), |i: int| gates[i].qubits);
        assert forall|i: int| 0 <= i < gates.len() implies #[trigger] qv[i] == gates[i].qubits by {}
        lemma_placements_to_groups_cover(gates, qv, 0, n);
        lemma_cover_elements(qv, 0, n);
        assert forall|i: int, kk: int|
            0 <= i < gates.len() && 0 <= kk < gates[i].qubits.len() implies 0 <= (
        #[trigger] gates[i].qubits[kk]) as int && (gates[i].qubits[kk] as int) < n by {
            assert(qv[i][kk] == gates[i].qubits[kk]);
        }
        lemma_entangle_step_ok(acc.last(), gates, gates.len() as int, n);
        lemma_entangle_step_cover(acc.last(), gates, gates.len() as int, n);
        assert(spec_entangle_upto(circ, t)->Ok_0.last() == spec_entangle_step(
            acc.last(),
            gates,
            gates.len() as int,
        )->Ok_0);
    }
}

/// The row where the k-th placement of a covering step starts.
pub open spec fn placements_end(gates: Seq<PlacementView>, k: int) -> int
    decreases k,
{
    if k <= 0 {
        0
    } else {
        placements_end(gates, k - 1) + gates[k - 1].qubits.len()
    }
}

pub(crate) proof fn lemma_placements_end(ps: Seq<PlacementView>, q0: int, n: int, k: int)
    requires
        placements_cover_from(ps, q0, n),
        0 <= k <= ps.len(),
    ensures
        k < ps.len() ==> ps[k].qubits[0] as int == q0 + placements_end(ps, k),
        k == ps.len() ==> q0 + placements_end(ps, k) == n,
        placements_end(ps, k) >= 0,
    decreases k,
{
    if k == 0 {
        if ps.len() == 0 {
        }
    } else {
        lemma_placements_end(ps, q0, n, k - 1);
        lemma_cover_index_facts(ps, q0, n, k - 1);
    }
}

/// The suffix of a cover from any index is itself a cover.
pub(crate) proof fn lemma_cover_index_facts(ps: Seq<PlacementView>, q0: int, n: int, k: int)
    requires
        placements_cover_from(ps, q0, n),
        0 <= k < ps.len(),
    ensures
        ps[k].qubits[0] as int == q0 + placements_end(ps, k),
        q0 + placements_end(ps, k + 1) <= n,
        k + 1 < ps.len() ==> ps[k + 1].qubits[0] as int == q0 + placements_end(ps, k + 1),
        k + 1 == ps.len() ==> q0 + placements_end(ps, k + 1) == n,
    decreases ps.len(),
{
    if k == 0 {
        assert(placements_end(ps, 0) == 0);
        assert(placements_end(ps, 1) == ps[0].qubits.len());
        if ps.len() > 1 {
            assert(placements_cover_from(ps.skip(1), q0 + ps[0].qubits.len(), n));
            assert(ps.skip(1)[0] == ps[1]);
        } else {
            assert(placements_cover_from(ps.skip(1), q0 + ps[0].qubits.len(), n));
            assert(ps.skip(1) =~~= Seq::<PlacementView>::empty());
        }
    } else {
        assert(placements_cover_from(ps.skip(1), q0 + ps[0].qubits.len(), n));
        lemma_cover_index_facts(ps.skip(1), q0 + ps[0].qubits.len(), n, k - 1);
        assert(ps.skip(1)[k - 1] == ps[k]);
        if k + 1 < ps.len() {
            assert(ps.skip(1)[k] == ps[k + 1]);
        }
        lemma_end_shift(ps, k);
        lemma_end_shift(ps, k + 1);
    }
}

/// Dropping the head placement shifts the running end by its width.
proof fn lemma_end_shift(ps: Seq<PlacementView>, k: int)
    requires
        1 <= k <= ps.len(),
    ensures
        placements_end(ps, k) == ps[0].qubits.len() + placements_end(ps.skip(1), k - 1),
    decreases k,
{
    if k == 1 {
        assert(placements_end(ps, 0) == 0);
        assert(placements_end(ps.skip(1), 0) == 0);
    } else {
        lemma_end_shift(ps, k - 1);
        assert(ps.skip(1)[k - 2] == ps[k - 1]);
        assert(placements_end(ps.skip(1), k - 1) == placements_end(ps.skip(1), k - 2) + ps.skip(
            1,
        )[k - 2].qubits.len());
    }
}

/// The combiner's group lookups never fire the defensive check on a
/// well-formed step against a covering partition: the reduction of the whole
/// step succeeds.
pub proof fn lemma_combine_step_never_fails(
    gates: Seq<PlacementView>,
    groups: Seq<Seq<usize>>,
    k: int,
    n: int,
)
    requires
        placements_cover_from(gates, 0, n),
        groups_cover_from(groups, 0, n),
        1 <= k <= gates.len(),
        n <= MAX_QUBITS,
    ensures
        spec_combine_step(gates, groups, k) is Ok,
        spec_combine_step(gates, groups, k)->Ok_0.len() >= 1,
        placements_cover_from(spec_combine_step(gates, groups, k)->Ok_0, 0, placements_end(gates, k)),
    decreases k,
{
    lemma_cover_all_placements_wf(gates, 0, n);
    if k == 1 {
        lemma_placements_end(gates, 0, n, 0);
        lemma_placements_end(gates, 0, n, 1);
        lemma_cover_index_facts(gates, 0, n, 0);
        assert(gates[0].qubits[0] as int == 0);
        assert(0 <= gates[0].qubits[0] as int && (gates[0].qubits[0] as int) < n);
        lemma_cover_find_some(groups, 0, n, gates[0].qubits[0]);
        let acc = seq![gates[0]];
        assert(acc.drop_last() =~~= Seq::<PlacementView>::empty());
        assert(placements_cover_from(acc.drop_last(), 0, 0));
        lemma_cover_push(acc.drop_last(), gates[0], 0, 0);
        assert(acc.drop_last().push(gates[0]) =~~= acc);
        assert(placements_cover_from(acc, 0, placements_end(gates, 1)));
    } else {
        lemma_combine_step_never_fails(gates, groups, k - 1, n);
        let acc = spec_combine_step(gates, groups, k - 1)->Ok_0;
        let endp = placements_end(gates, k - 1);
        lemma_placements_end(gates, 0, n, k - 1);
        lemma_cover_index_facts(gates, 0, n, k - 1);
        let g = gates[k - 1];
        assert(g.qubits[0] as int == endp);
        assert(placement_wf(g));
        assert(g.qubits.len() >= 1);
        assert(endp + g.qubits.len() <= n);
        assert(0 <= g.qubits[0] as int && (g.qubits[0] as int) < n);
        lemma_cover_find_some(groups, 0, n, g.qubits[0]);
        lemma_cover_last(acc, 0, endp);
        assert(0 <= acc.last().qubits[0] as int && (acc.last().qubits[0] as int) < n);
        lemma_cover_find_some(groups, 0, n, acc.last().qubits[0]);
        let gc = find_group(groups, g.qubits[0])->Some_0;
        let gp = find_group(groups, acc.last().qubits[0])->Some_0;
        if gc == gp {
            let fused = fuse_placements(acc.last(), g);
            assert(placement_wf(fused)) by {
                assert forall|kk: int| 0 <= kk < fused.qubits.len() implies (
                #[trigger] fused.qubits[kk]) as int == fused.qubits[0] + kk by {
                    if kk >= acc.last().qubits.len() {
                        assert(fused.qubits[kk] == g.qubits[kk - acc.last().qubits.len()]);
                        assert(g.qubits[kk - acc.last().qubits.len()] as int == g.qubits[0] + (kk
                            - acc.last().qubits.len()));
                    } else {
                        assert(fused.qubits[kk] == acc.last().qubits[kk]);
                    }
                }
                assert(gate_wf(fused.gate)) by {
                    lemma_fused_gate_wf(acc.last(), g, n);
                }
            }
            lemma_cover_push(acc.drop_last(), fused, 0, acc.last().qubits[0] as int);
        } else {
            lemma_cover_push(acc, g, 0, endp);
        }
    }
}

/// Tensoring the operators of two adjacent covered placements yields a
/// well-formed operator again.
proof fn lemma_fused_gate_wf(p: PlacementView, g: PlacementView, n: int)
    requires
        placement_wf(p),
        placement_wf(g),
        p.qubits.len() + g.qubits.len() <= n,
        n <= MAX_QUBITS,
    ensures
        gate_wf(fuse_placements(p, g).gate),
{
    let a = p.gate;
    let b = g.gate;
    let sz = (a.size + b.size) as nat;
    vstd::arithmetic::power2::lemma_pow2_adds(a.size, b.size);
    crate::quantum_gate::lemma_entry_bound_facts(a.size);
    crate::quantum_gate::lemma_entry_bound_facts(b.size);
    crate::quantum_gate::lemma_entry_bound_facts(sz);
    crate::quantum_gate::lemma_entry_bound_times(a.size, b.size);
    let m = crate::quantum_gate::kron_mat(a.mat, b.mat);
    assert(m.len() == a.mat.len() * b.mat.len());
    assert(m.len() == vstd::arithmetic::power2::pow2(sz)) by {
        assert(a.mat.len() * b.mat.len() == vstd::arithmetic::power2::pow2(a.size)
            * vstd::arithmetic::power2::pow2(b.size));
    }
    assert forall|i: int| 0 <= i < m.len() implies (#[trigger] m[i]).len() == m.len() by {}
    assert forall|i: int, j: int|
        0 <= i < m.len() && 0 <= j < m.len() implies crate::amplitude::zw_bounded(
        #[trigger] m[i][j],
        crate::quantum_gate::entry_bound(sz),
    ) by {
        vstd::arithmetic::power2::lemma_pow2_pos(a.size);
        vstd::arithmetic::power2::lemma_pow2_pos(b.size);
        crate::quantum_gate::lemma_kron_index(i, a.mat.len() as int, b.mat.len() as int);
        crate::quantum_gate::lemma_kron_index(j, a.mat.len() as int, b.mat.len() as int);
        crate::amplitude::lemma_zw_times_bounded(
            a.mat[i / b.mat.len() as int][j / b.mat.len() as int],
            b.mat[i % b.mat.len() as int][j % b.mat.len() as int],
            crate::quantum_gate::entry_bound(a.size),
            crate::quantum_gate::entry_bound(b.size),
        );
    }
}

proof fn lemma_single_gate_wf(t: Seq<char>)
    requires
        token_is_single(t),
    ensures
        gate_wf(single_gate_view(t)),
        single_gate_view(t).size == 1,
{
    let gv = single_gate_view(t);
    assert(gv.mat.len() == 2);
    assert forall|i: int| 0 <= i < 2 implies (#[trigger] gv.mat[i]).len() == 2 by {}
    assert forall|i: int, j: int|
        0 <= i < 2 && 0 <= j < 2 implies crate::amplitude::zw_bounded(
        #[trigger] gv.mat[i][j],
        1,
    ) by {}
    crate::quantum_gate::lemma_wf_one_qubit(gv);
}

proof fn lemma_cdown_gate_wf(g: GateView)
    requires
        gate_wf(g),
        g.size < MAX_QUBITS,
    ensures
        gate_wf(cdown_gate_view(g)),
{
    let r = cdown_gate_view(g);
    vstd::arithmetic::power2::lemma_pow2_adds(g.size, 1);
    vstd::arithmetic::power2::lemma2_to64();
    assert(r.mat.len() == 2 * g.mat.len());
    assert(r.mat.len() == vstd::arithmetic::power2::pow2(r.size));
    crate::quantum_gate::lemma_entry_bound_facts(g.size);
    crate::quantum_gate::lemma_entry_bound_facts(r.size);
    crate::quantum_gate::lemma_sqrt2_pow_bounded(g.scale);
    assert(vstd::arithmetic::power2::pow2(g.scale) <= vstd::arithmetic::power2::pow2(2 * g.size))
        by {
        if g.scale < 2 * g.size {
            vstd::arithmetic::power2::lemma_pow2_strictly_increases(g.scale, 2 * g.size);
        }
    }
    crate::quantum_gate::lemma_pow4_is_pow2_twice(g.size);
    assert(crate::quantum_gate::entry_bound(g.size) <= crate::quantum_gate::entry_bound(r.size))
        by {
        vstd::arithmetic::power::lemma_pow_increases(4, (g.size - 1) as nat, g.size);
    }
    assert forall|i: int| 0 <= i < r.mat.len() implies (#[trigger] r.mat[i]).len()
        == r.mat.len() by {}
    assert forall|i: int, j: int|
        0 <= i < r.mat.len() && 0 <= j < r.mat.len() implies crate::amplitude::zw_bounded(
        #[trigger] r.mat[i][j],
        crate::quantum_gate::entry_bound(r.size),
    ) by {}
    assert(gate_wf(r));
}

proof fn lemma_swap_gate_wf()
    ensures
        gate_wf(swap_gate_view()),
{
    let r = swap_gate_view();
    vstd::arithmetic::power2::lemma2_to64();
    crate::quantum_gate::lemma_pow4_is_pow2_twice(1);
    assert(crate::quantum_gate::entry_bound(2) == vstd::arithmetic::power2::pow2(2) as int);
    assert forall|i: int| 0 <= i < 4 implies (#[trigger] r.mat[i]).len() == 4 by {}
    assert forall|i: int, j: int|
        0 <= i < 4 && 0 <= j < 4 implies crate::amplitude::zw_bounded(
        #[trigger] r.mat[i][j],
        crate::quantum_gate::entry_bound(2),
    ) by {}
    assert(gate_wf(r));
}

/// A successful column resolution covers the rows from its starting point.
proof fn lemma_parse_col_covers(toks: Seq<Seq<char>>, q: nat)
    requires
        toks.len() <= usize::MAX,
        q <= toks.len(),
        spec_parse_col(toks, q) is Ok,
    ensures
        placements_cover_from(spec_parse_col(toks, q)->Ok_0, q as int, toks.len() as int),
        forall|i: int|
            0 <= i < spec_parse_col(toks, q)->Ok_0.len() ==> (#[trigger] spec_parse_col(
                toks,
                q,
            )->Ok_0[i]).qubits.len() <= 2,
    decreases toks.len() - q,
{
    if q >= toks.len() {
    } else {
        let t = toks[q as int];
        if token_is_single(t) {
            lemma_parse_col_covers(toks, (q + 1) as nat);
            let rest = spec_parse_col(toks, (q + 1) as nat)->Ok_0;
            let p = single_placement(t, q as usize);
            lemma_single_gate_wf(t);
            assert(placement_wf(p));
            assert((seq![p] + rest).skip(1) =~~= rest);
            assert((seq![p] + rest)[0] == p);
        } else if t == "C_down"@ {
            let t2 = toks[q as int + 1];
            lemma_parse_col_covers(toks, (q + 2) as nat);
            let rest = spec_parse_col(toks, (q + 2) as nat)->Ok_0;
            lemma_single_gate_wf(t2);
            lemma_cdown_gate_wf(single_gate_view(t2));
            let p = PlacementView {
                gate: cdown_gate_view(single_gate_view(t2)),
                qubits: seq![q as usize, (q + 1) as usize],
            };
            assert(placement_wf(p));
            assert((seq![p] + rest).skip(1) =~~= rest);
            assert((seq![p] + rest)[0] == p);
        } else if t == "Swap"@ {
            if q + 1 < toks.len() && toks[q as int + 1] == "Swap"@ {
                lemma_parse_col_covers(toks, (q + 2) as nat);
                let rest = spec_parse_col(toks, (q + 2) as nat)->Ok_0;
                lemma_swap_gate_wf();
                let p = PlacementView {
                    gate: swap_gate_view(),
                    qubits: seq![q as usize, (q + 1) as usize],
                };
                assert(placement_wf(p));
                assert((seq![p] + rest).skip(1) =~~= rest);
                assert((seq![p] + rest)[0] == p);
            } else {
                lemma_parse_col_covers(toks, (q + 1) as nat);
                let rest = spec_parse_col(toks, (q + 1) as nat)->Ok_0;
                let p = single_placement("I"@, q as usize);
                lemma_token_literals();
                lemma_single_gate_wf("I"@);
                assert(placement_wf(p));
                assert((seq![p] + rest).skip(1) =~~= rest);
                assert((seq![p] + rest)[0] == p);
            }
        }
    }
}

/// The column resolution reports only the two parsing errors.
proof fn lemma_parse_col_errors(toks: Seq<Seq<char>>, q: nat)
    requires
        spec_parse_col(toks, q) is Err,
    ensures
        spec_parse_col(toks, q)->Err_0 == QuantumCircuitError::InvalidGateToken
            || spec_parse_col(toks, q)->Err_0 == QuantumCircuitError::MalformedMultiQubitGate,
    decreases toks.len() - q,
{
    if q >= toks.len() {
    } else {
        let t = toks[q as int];
        if token_is_single(t) {
            lemma_parse_col_errors(toks, (q + 1) as nat);
        } else if t == "C_down"@ {
            if q + 1 < toks.len() && token_is_single(toks[q as int + 1]) {
                if spec_parse_col(toks, (q + 2) as nat) is Err {
                    lemma_parse_col_errors(toks, (q + 2) as nat);
                }
            }
        } else if t == "Swap"@ {
            if q + 1 < toks.len() && toks[q as int + 1] == "Swap"@ {
                lemma_parse_col_errors(toks, (q + 2) as nat);
            } else {
                lemma_parse_col_errors(toks, (q + 1) as nat);
            }
        }
    }
}

pub(crate) proof fn lemma_preparse_facts(g: Seq<Seq<Seq<char>>>, s: int)
    requires
        grid_wf(g),
        0 <= s <= g[0].len(),
    ensures
        spec_preparse_upto(g, s) matches Ok(c) ==> {
            &&& c.len() == s
            &&& forall|t: int|
                0 <= t < s ==> placements_cover_from(#[trigger] c[t], 0, g.len() as int)
            &&& forall|t: int, i: int|
                0 <= t < s && 0 <= i < c[t].len() ==> (#[trigger] c[t][i]).qubits.len() <= 2
        },
        spec_preparse_upto(g, s) matches Err(e) ==> (e == QuantumCircuitError::InvalidGateToken
            || e == QuantumCircuitError::MalformedMultiQubitGate),
    decreases s,
{
    if s > 0 {
        lemma_preparse_facts(g, s - 1);
        if spec_preparse_upto(g, s - 1) is Ok {
            let col = grid_column(g, s - 1);
            assert(col.len() == g.len());
            if spec_parse_col(col, 0) is Ok {
                lemma_parse_col_covers(col, 0);
            } else {
                lemma_parse_col_errors(col, 0);
            }
        }
    }
}

proof fn lemma_combine_upto_ok(
    circ: Seq<Seq<PlacementView>>,
    groups: Seq<Seq<Seq<usize>>>,
    n: int,
    t: int,
)
    requires
        circ.len() >= 1,
        1 <= n <= MAX_QUBITS,
        1 <= t <= circ.len(),
        groups.len() == circ.len(),
        forall|tt: int| 0 <= tt < circ.len() ==> placements_cover_from(#[trigger] circ[tt], 0, n),
        forall|tt: int| 0 <= tt < groups.len() ==> groups_cover_from(#[trigger] groups[tt], 0, n),
    ensures
        spec_combine_upto(circ, groups, t) is Ok,
    decreases t,
{
    if t > 1 {
        lemma_combine_upto_ok(circ, groups, n, t - 1);
        let gates = circ[t - 1];
        assert(gates.len() >= 1) by {
            if gates.len() == 0 {
                assert(n == 0);
            }
        }
        lemma_combine_step_never_fails(gates, groups[t - 1], gates.len() as int, n);
    }
}

/// Law: the builder fails exactly when the parse fails, and only with the
/// two parsing errors; on a well-formed grid the entanglement tracking and
/// gate combination stages never fail, so the defensive bookkeeping check is
/// unreachable there.
pub proof fn lemma_build_fails_only_in_parsing(g: Seq<Seq<Seq<char>>>)
    requires
        grid_wf(g),
    ensures
        spec_build(g) is Err <==> spec_preparse(g) is Err,
        spec_build(g) matches Err(e) ==> {
            &&& e == spec_preparse(g)->Err_0
            &&& (e == QuantumCircuitError::InvalidGateToken
                || e == QuantumCircuitError::MalformedMultiQubitGate)
        },
{
    lemma_preparse_facts(g, g[0].len() as int);
    if spec_preparse(g) is Ok {
        let pre = spec_preparse(g)->Ok_0;
        assert(pre.len() == g[0].len() >= 1);
        lemma_entangle_never_fails(pre, g.len() as int, pre.len() as int);
        let groups = spec_entangle_upto(pre, pre.len() as int)->Ok_0;
        lemma_entangle_upto_cover(pre, g.len() as int, pre.len() as int);
        lemma_combine_upto_ok(pre, groups, g.len() as int, pre.len() as int);
    }
}

proof fn lemma_merge_keeps_together(
    gs: Seq<Seq<usize>>,
    g1: Seq<usize>,
    g2: Seq<usize>,
    x: usize,
    y: usize,
    i: int,
)
    requires
        spec_merge_groups(gs, g1, g2) is Ok,
        0 <= i < gs.len(),
        gs[i].contains(x),
        gs[i].contains(y),
    ensures
        exists|j: int|
            0 <= j < spec_merge_groups(gs, g1, g2)->Ok_0.len() && (
            #[trigger] spec_merge_groups(gs, g1, g2)->Ok_0[j]).contains(x) && spec_merge_groups(
                gs,
                g1,
                g2,
            )->Ok_0[j].contains(y),
    decreases gs.len(),
{
    let out = spec_merge_groups(gs, g1, g2)->Ok_0;
    if gs[0] == g1 {
        let rest = spec_merge_groups(gs.skip(2), g1, g2)->Ok_0;
        assert(out == seq![g1 + g2] + rest);
        if i == 0 {
            assert(out[0].contains(x)) by {
                let k = choose|k: int| 0 <= k < g1.len() && g1[k] == x;
                assert((g1 + g2)[k] == x);
            }
            assert(out[0].contains(y)) by {
                let k = choose|k: int| 0 <= k < g1.len() && g1[k] == y;
                assert((g1 + g2)[k] == y);
            }
        } else if i == 1 {
            assert(gs[1] == g2);
            assert(out[0].contains(x)) by {
                let k = choose|k: int| 0 <= k < g2.len() && g2[k] == x;
                assert((g1 + g2)[g1.len() + k] == x);
            }
            assert(out[0].contains(y)) by {
                let k = choose|k: int| 0 <= k < g2.len() && g2[k] == y;
                assert((g1 + g2)[g1.len() + k] == y);
            }
        } else {
            assert(gs.skip(2)[i - 2] == gs[i]);
            lemma_merge_keeps_together(gs.skip(2), g1, g2, x, y, i - 2);
            let j = choose|j: int|
                0 <= j < rest.len() && (#[trigger] rest[j]).contains(x) && rest[j].contains(y);
            assert(out[j + 1] == rest[j]);
        }
    } else {
        let rest = spec_merge_groups(gs.skip(1), g1, g2)->Ok_0;
        assert(out == seq![gs[0]] + rest);
        if i == 0 {
            assert(out[0] == gs[0]);
        } else {
            assert(gs.skip(1)[i - 1] == gs[i]);
            lemma_merge_keeps_together(gs.skip(1), g1, g2, x, y, i - 1);
            let j = choose|j: int|
                0 <= j < rest.len() && (#[trigger] rest[j]).contains(x) && rest[j].contains(y);
            assert(out[j + 1] == rest[j]);
        }
    }
}

proof fn lemma_merge_contains_union(gs: Seq<Seq<usize>>, g1: Seq<usize>, g2: Seq<usize>, i: int)
    requires
        spec_merge_groups(gs, g1, g2) is Ok,
        0 <= i < gs.len(),
        gs[i] == g1,
    ensures
        spec_merge_groups(gs, g1, g2)->Ok_0.contains(g1 + g2),
    decreases gs.len(),
{
    let out = spec_merge_groups(gs, g1, g2)->Ok_0;
    if gs[0] == g1 {
        assert(out[0] == g1 + g2);
    } else {
        assert(i >= 1);
        assert(gs.skip(1)[i - 1] == gs[i]);
        lemma_merge_contains_union(gs.skip(1), g1, g2, i - 1);
        let rest = spec_merge_groups(gs.skip(1), g1, g2)->Ok_0;
        let j = choose|j: int| 0 <= j < rest.len() && rest[j] == g1 + g2;
        assert(out[j + 1] == g1 + g2);
    }
}

/// Law: after a step's entanglement pass, both operands of every 2-qubit
/// placement of the step lie in one group, so the fragments a wide operator
/// acts on are always fully tensor-composed before it applies.
pub proof fn lemma_two_qubit_operands_share_a_group(
    prev: Seq<Seq<usize>>,
    gates: Seq<PlacementView>,
    k: int,
    idx: int,
)
    requires
        spec_entangle_step(prev, gates, k) is Ok,
        0 <= idx < k <= gates.len(),
        gates[idx].qubits.len() == 2,
    ensures
        exists|j: int|
            0 <= j < spec_entangle_step(prev, gates, k)->Ok_0.len() && (
            #[trigger] spec_entangle_step(prev, gates, k)->Ok_0[j]).contains(gates[idx].qubits[0])
                && spec_entangle_step(prev, gates, k)->Ok_0[j].contains(gates[idx].qubits[1]),
    decreases k,
{
    assert(spec_entangle_step(prev, gates, k - 1) is Ok);
    let cur = spec_entangle_step(prev, gates, k - 1)->Ok_0;
    let out = spec_entangle_step(prev, gates, k)->Ok_0;
    let g = gates[k - 1];
    let a = g.qubits[0];
    let b = g.qubits[1];
    if idx < k - 1 {
        lemma_two_qubit_operands_share_a_group(prev, gates, k - 1, idx);
        let x = gates[idx].qubits[0];
        let y = gates[idx].qubits[1];
        let i = choose|i: int|
            0 <= i < cur.len() && (#[trigger] cur[i]).contains(x) && cur[i].contains(y);
        if g.qubits.len() == 2 {
            match (find_group(cur, a), find_group(cur, b)) {
                (Some(ga), Some(gb)) => {
                    if ga != gb {
                        lemma_merge_keeps_together(cur, ga, gb, x, y, i);
                    } else {
                        assert(out[i].contains(x) && out[i].contains(y));
                    }
                },
                _ => {
                    assert(false);
                },
            }
        } else {
            assert(out[i].contains(x) && out[i].contains(y));
        }
    } else {
        match (find_group(cur, a), find_group(cur, b)) {
            (Some(ga), Some(gb)) => {
                lemma_find_group_membership(cur, a);
                lemma_find_group_membership(cur, b);
                if ga != gb {
                    let ia = choose|i: int|
                        0 <= i < cur.len() && cur[i] == ga && (#[trigger] cur[i]).contains(a);
                    lemma_merge_contains_union(cur, ga, gb, ia);
                    let j = choose|j: int| 0 <= j < out.len() && out[j] == ga + gb;
                    assert(out[j].contains(a)) by {
                        let ka = choose|kk: int| 0 <= kk < ga.len() && ga[kk] == a;
                        assert((ga + gb)[ka] == a);
                    }
                    assert(out[j].contains(b)) by {
                        let kb = choose|kk: int| 0 <= kk < gb.len() && gb[kk] == b;
                        assert((ga + gb)[ga.len() + kb] == b);
                    }
                } else {
                    let ia = choose|i: int|
                        0 <= i < cur.len() && cur[i] == ga && (#[trigger] cur[i]).contains(a);
                    assert(out[ia].contains(a) && out[ia].contains(b));
                }
            },
            _ => {
                assert(false);
            },
        }
    }
}

proof fn lemma_find_group_unique(gs: Seq<Seq<usize>>, n: int, i: int, x: usize)
    requires
        groups_cover_from(gs, 0, n),
        0 <= i < gs.len(),
        gs[i].contains(x),
    ensures
        find_group(gs, x) == Some(gs[i]),
{
    lemma_cover_partition(gs, 0, n);
    assert(0 <= x as int && (x as int) < n);
    lemma_cover_find_some(gs, 0, n, x);
    lemma_find_group_membership(gs, x);
    let j = choose|j: int|
        0 <= j < gs.len() && gs[j] == find_group(gs, x)->Some_0 && (#[trigger] gs[j]).contains(x);
    assert(i == j) by {
        if i != j {
            assert(!gs[j].contains(x));
        }
    }
}

pub(crate) proof fn lemma_groups_contiguous(gs: Seq<Seq<usize>>, q0: int, n: int, m: int)
    requires
        groups_cover_from(gs, q0, n),
        0 <= m < gs.len(),
    ensures
        gs[m].len() >= 1,
        forall|kk: int|
            0 <= kk < gs[m].len() ==> (#[trigger] gs[m][kk]) as int == gs[m][0] + kk,
    decreases m,
{
    if m > 0 {
        lemma_groups_contiguous(gs.skip(1), q0 + gs[0].len(), n, m - 1);
        assert(gs.skip(1)[m - 1] == gs[m]);
    }
}

/// One group of a partition holds every qubit of the placement.
pub open spec fn placement_in_one_group(groups: Seq<Seq<usize>>, p: PlacementView) -> bool {
    exists|j: int|
        0 <= j < groups.len() && forall|kk: int|
            0 <= kk < p.qubits.len() ==> (#[trigger] groups[j]).contains(#[trigger] p.qubits[kk])
}

/// Law: against a partition that each placement respects, the combiner
/// reduces a step to exactly one placement per group: the fused qubit runs
/// are the groups themselves, in order.
pub proof fn lemma_combine_runs_are_groups(
    gates: Seq<PlacementView>,
    groups: Seq<Seq<usize>>,
    k: int,
    n: int,
)
    requires
        placements_cover_from(gates, 0, n),
        groups_cover_from(groups, 0, n),
        1 <= k <= gates.len(),
        n <= MAX_QUBITS,
        forall|i: int| 0 <= i < gates.len() ==> placement_in_one_group(groups, #[trigger] gates[i]),
    ensures
        spec_combine_step(gates, groups, k) is Ok,
        ({
            let acc = spec_combine_step(gates, groups, k)->Ok_0;
            let endk = placements_end(gates, k);
            exists|m: int|
                {
                    &&& 0 <= m < groups.len()
                    &&& acc.len() == m + 1
                    &&& (forall|i: int| 0 <= i < m ==> (#[trigger] acc[i]).qubits == groups[i])
                    &&& acc[m].qubits.len() >= 1
                    &&& acc[m].qubits[0] == groups[m][0]
                    &&& (forall|kk: int|
                        0 <= kk < acc[m].qubits.len() ==> (#[trigger] acc[m].qubits[kk])
                            == groups[m][kk])
                    &&& acc[m].qubits.len() <= groups[m].len()
                    &&& endk == groups[m][0] + acc[m].qubits.len()
                }
        }),
    decreases k,
{
    lemma_combine_step_never_fails(gates, groups, k, n);
    lemma_cover_all_placements_wf(gates, 0, n);
    lemma_cover_elements_placements(gates, 0, n);
    if k == 1 {
        lemma_cover_index_facts(gates, 0, n, 0);
        lemma_groups_contiguous(groups, 0, n, 0);
        let p = gates[0];
        assert(p.qubits[0] as int == 0);
        let jg = choose|j: int|
            0 <= j < groups.len() && forall|kk: int|
                0 <= kk < p.qubits.len() ==> (#[trigger] groups[j]).contains(#[trigger] p.qubits[kk]);
        assert(groups[jg].contains(p.qubits[0]));
        assert(jg == 0) by {
            lemma_cover_partition(groups, 0, n);
            assert(groups.len() >= 1);
            assert(groups[0][0] == 0);
            assert(groups[0].contains(0usize)) by {
                assert(groups[0][0] == 0usize);
            }
            let kx = choose|kk: int| 0 <= kk < groups[jg].len() && groups[jg][kk] == p.qubits[0];
            assert(groups[jg][kx] as int == groups[jg][0] + kx);
            if jg != 0 {
                assert(groups[jg].contains(0usize));
                assert(!groups[0].contains(0usize));
            }
        }
        assert forall|kk: int| 0 <= kk < p.qubits.len() implies (#[trigger] p.qubits[kk])
            == groups[0][kk] by {
            let q = p.qubits[kk];
            assert(groups[0].contains(q));
            let kx = choose|jj: int| 0 <= jj < groups[0].len() && groups[0][jj] == q;
            assert(groups[0][kx] as int == groups[0][0] + kx);
            assert(q as int == kk);
            assert(groups[0][kk] as int == kk);
        }
        assert(p.qubits.len() <= groups[0].len()) by {
            let last: int = p.qubits.len() - 1;
            assert(groups[0].contains(p.qubits[last]));
            let kx = choose|jj: int|
                0 <= jj < groups[0].len() && groups[0][jj] == p.qubits[last];
            assert(groups[0][kx] as int == kx);
            assert(p.qubits[last] as int == last);
        }
        assert(placements_end(gates, 1) == gates[0].qubits.len());
        assert(groups[0][0] == 0);
    } else {
        lemma_combine_runs_are_groups(gates, groups, k - 1, n);
        lemma_combine_step_never_fails(gates, groups, k - 1, n);
        let acc = spec_combine_step(gates, groups, k - 1)->Ok_0;
        let out = spec_combine_step(gates, groups, k)->Ok_0;
        let endp = placements_end(gates, k - 1);
        let m = choose|m: int|
            {
                &&& 0 <= m < groups.len()
                &&& acc.len() == m + 1
                &&& (forall|i: int| 0 <= i < m ==> (#[trigger] acc[i]).qubits == groups[i])
                &&& acc[m].qubits.len() >= 1
                &&& acc[m].qubits[0] == groups[m][0]
                &&& (forall|kk: int|
                    0 <= kk < acc[m].qubits.len() ==> (#[trigger] acc[m].qubits[kk])
                        == groups[m][kk])
                &&& acc[m].qubits.len() <= groups[m].len()
                &&& endp == groups[m][0] + acc[m].qubits.len()
            };
        lemma_cover_index_facts(gates, 0, n, k - 1);
        let g = gates[k - 1];
        assert(g.qubits[0] as int == endp);
        assert(endp + g.qubits.len() <= n);
        lemma_cover_partition(groups, 0, n);
        lemma_cover_elements(groups, 0, n);
        lemma_groups_contiguous(groups, 0, n, m);
        let jg = choose|j: int|
            0 <= j < groups.len() && forall|kk: int|
                0 <= kk < g.qubits.len() ==> (#[trigger] groups[j]).contains(#[trigger] g.qubits[kk]);
        assert(groups[jg].contains(g.qubits[0]));
        assert(acc.last() == acc[m]);
        assert(acc.last().qubits[0] == groups[m][0]);
        assert(groups[m].contains(groups[m][0])) by {
            assert(groups[m][0] == groups[m][0]);
        }
        lemma_find_group_unique(groups, n, m, acc.last().qubits[0]);
        lemma_find_group_unique(groups, n, jg, g.qubits[0]);
        let gc = find_group(groups, g.qubits[0])->Some_0;
        let gp = find_group(groups, acc.last().qubits[0])->Some_0;
        assert(gp == groups[m]);
        assert(gc == groups[jg]);
        // where does the next placement start relative to group m's run?
        let mstart = groups[m][0] as int;
        let mlen = groups[m].len();
        if acc[m].qubits.len() < mlen {
            // strictly inside group m: the next placement continues it
            assert(endp == mstart + acc[m].qubits.len());
            assert(groups[m][acc[m].qubits.len() as int] as int == mstart
                + acc[m].qubits.len());
            assert(groups[m].contains(g.qubits[0])) by {
                assert(groups[m][acc[m].qubits.len() as int] as int == endp);
                assert(g.qubits[0] as int == endp);
                assert(groups[m][acc[m].qubits.len() as int] == g.qubits[0]);
            }
            assert(jg == m) by {
                if jg != m {
                    assert(!groups[jg].contains(g.qubits[0]));
                }
            }
            assert(gc == gp);
            let fused = fuse_placements(acc.last(), g);
            assert(out == acc.drop_last().push(fused));
            assert(out.len() == m + 1);
            assert forall|i: int| 0 <= i < m implies (#[trigger] out[i]).qubits == groups[i] by {
                assert(out[i] == acc[i]);
            }
            assert(fused.qubits.len() == acc[m].qubits.len() + g.qubits.len());
            assert forall|kk: int| 0 <= kk < fused.qubits.len() implies (
            #[trigger] fused.qubits[kk]) == groups[m][kk] by {
                if kk < acc[m].qubits.len() {
                    assert(fused.qubits[kk] == acc[m].qubits[kk]);
                } else {
                    assert(fused.qubits[kk] == g.qubits[kk - acc[m].qubits.len()]);
                    assert(g.qubits[kk - acc[m].qubits.len()] as int == g.qubits[0] + (
                    kk - acc[m].qubits.len()));
                    assert(groups[m].contains(g.qubits[kk - acc[m].qubits.len()]));
                    let q = g.qubits[kk - acc[m].qubits.len()];
                    let kx = choose|jj: int| 0 <= jj < groups[m].len() && groups[m][jj] == q;
                    assert(groups[m][kx] as int == mstart + kx);
                    assert(q as int == mstart + kk);
                    assert(kx == kk);
                }
            }
            assert(fused.qubits.len() <= mlen) by {
                let lastk: int = fused.qubits.len() - 1;
                let q = g.qubits[lastk - acc[m].qubits.len()];
                assert(groups[m].contains(q));
                let kx = choose|jj: int| 0 <= jj < groups[m].len() && groups[m][jj] == q;
                assert(groups[m][kx] as int == mstart + kx);
                assert(q as int == mstart + lastk);
            }
            assert(fused.qubits[0] == groups[m][0]);
            assert(placements_end(gates, k) == endp + g.qubits.len());
        } else {
            // exactly at group m's boundary: a new group starts here
            assert(acc[m].qubits.len() == mlen);
            assert(endp == mstart + mlen);
            lemma_groups_start(groups, 0, n, m);
            lemma_groups_end(groups, 0, n, m);
            assert(endp == groups_end(groups, m + 1));
            assert(m + 1 < groups.len()) by {
                if m + 1 == groups.len() {
                    assert(endp == n);
                    assert(endp + g.qubits.len() <= n);
                }
            }
            lemma_groups_contiguous(groups, 0, n, m + 1);
            lemma_groups_start(groups, 0, n, m + 1);
            assert(groups[m + 1][0] as int == endp);
            assert(groups[m + 1].contains(g.qubits[0])) by {
                assert(groups[m + 1][0] == g.qubits[0]);
            }
            assert(jg == m + 1) by {
                if jg != m + 1 {
                    assert(!groups[jg].contains(g.qubits[0]));
                }
            }
            assert(gc != gp) by {
                assert(groups[m][0] != groups[m + 1][0]);
                if groups[m] == groups[m + 1] {
                    assert(groups[m][0] == groups[m + 1][0]);
                }
            }
            assert(out == acc.push(g));
            assert(out.len() == m + 2);
            assert(acc[m].qubits =~~= groups[m]);
            assert forall|i: int| 0 <= i < m + 1 implies (#[trigger] out[i]).qubits
                == groups[i] by {
                assert(out[i] == acc[i]);
                if i == m {
                    assert(acc[m].qubits == groups[m]);
                }
            }
            assert forall|kk: int| 0 <= kk < g.qubits.len() implies (#[trigger] g.qubits[kk])
                == groups[m + 1][kk] by {
                let q = g.qubits[kk];
                assert(groups[m + 1].contains(q));
                let kx = choose|jj: int| 0 <= jj < groups[m + 1].len() && (#[trigger] groups[m + 1][jj]) == q;
                assert(groups[m + 1][kx] as int == endp + kx);
                assert(q as int == endp + kk);
            }
            assert(g.qubits.len() <= groups[m + 1].len()) by {
                let lastk: int = g.qubits.len() - 1;
                let q = g.qubits[lastk];
                assert(groups[m + 1].contains(q));
                let kx = choose|jj: int| 0 <= jj < groups[m + 1].len() && (#[trigger] groups[m + 1][jj]) == q;
                assert(groups[m + 1][kx] as int == endp + kx);
                assert(q as int == endp + lastk);
            }
            assert(placements_end(gates, k) == endp + g.qubits.len());
        }
    }
}

/// Elements of a placement cover lie within its range.
pub(crate) proof fn lemma_cover_elements_placements(ps: Seq<PlacementView>, q0: int, n: int)
    requires
        placements_cover_from(ps, q0, n),
    ensures
        forall|i: int, kk: int|
            0 <= i < ps.len() && 0 <= kk < ps[i].qubits.len() ==> q0 <= (
            #[trigger] ps[i].qubits[kk]) as int && (ps[i].qubits[kk] as int) < n,
    decreases ps.len(),
{
    if ps.len() > 0 {
        lemma_cover_elements_placements(ps.skip(1), q0 + ps[0].qubits.len(), n);
        assert forall|i: int, kk: int|
            0 <= i < ps.len() && 0 <= kk < ps[i].qubits.len() implies q0 <= (
        #[trigger] ps[i].qubits[kk]) as int && (ps[i].qubits[kk] as int) < n by {
            if i == 0 {
                assert(ps[0].qubits[kk] as int == q0 + kk);
            } else {
                assert(ps[i] == ps.skip(1)[i - 1]);
                assert(q0 + ps[0].qubits.len() <= (ps.skip(1)[i - 1].qubits[kk]) as int);
            }
        }
    }
}

/// The start row of group m in a cover.
pub(crate) proof fn lemma_groups_start(gs: Seq<Seq<usize>>, q0: int, n: int, m: int)
    requires
        groups_cover_from(gs, q0, n),
        0 <= m < gs.len(),
    ensures
        gs[m][0] as int == q0 + groups_end(gs, m),
    decreases m,
{
    if m == 0 {
        assert(groups_end(gs, 0) == 0);
    } else {
        lemma_groups_start(gs.skip(1), q0 + gs[0].len(), n, m - 1);
        assert(gs.skip(1)[m - 1] == gs[m]);
        lemma_groups_end_shift(gs, m);
    }
}

/// The row where group m's run ends.
pub open spec fn groups_end(gs: Seq<Seq<usize>>, m: int) -> int
    decreases m,
{
    if m <= 0 {
        0
    } else {
        groups_end(gs, m - 1) + gs[m - 1].len()
    }
}

proof fn lemma_groups_end_shift(gs: Seq<Seq<usize>>, m: int)
    requires
        1 <= m <= gs.len(),
    ensures
        groups_end(gs, m) == gs[0].len() + groups_end(gs.skip(1), m - 1),
    decreases m,
{
    if m == 1 {
        assert(groups_end(gs, 0) == 0);
        assert(groups_end(gs.skip(1), 0) == 0);
    } else {
        lemma_groups_end_shift(gs, m - 1);
        assert(gs.skip(1)[m - 2] == gs[m - 1]);
        assert(groups_end(gs.skip(1), m - 1) == groups_end(gs.skip(1), m - 2) + gs.skip(1)[m
            - 2].len());
    }
}

pub(crate) proof fn lemma_groups_end(gs: Seq<Seq<usize>>, q0: int, n: int, m: int)
    requires
        groups_cover_from(gs, q0, n),
        0 <= m < gs.len(),
    ensures
        q0 + groups_end(gs, m + 1) <= n,
        m + 1 == gs.len() ==> q0 + groups_end(gs, m + 1) == n,
        groups_end(gs, m + 1) == groups_end(gs, m) + gs[m].len(),
    decreases m,
{
    if m == 0 {
        assert(groups_end(gs, 0) == 0);
        assert(groups_end(gs, 1) == gs[0].len());
        if gs.len() == 1 {
            assert(groups_cover_from(gs.skip(1), q0 + gs[0].len(), n));
            assert(gs.skip(1) =~~= Seq::<Seq<usize>>::empty());
            assert(groups_cover_from(Seq::<Seq<usize>>::empty(), q0 + gs[0].len(), n));
            assert(q0 + gs[0].len() == n);
        }
    } else {
        lemma_groups_end(gs.skip(1), q0 + gs[0].len(), n, m - 1);
        lemma_groups_end_shift(gs, m);
        lemma_groups_end_shift(gs, m + 1);
        assert(gs.skip(1)[m - 1] == gs[m]);
    }
}

/// Every qubit of `g` occurs in `big`.
pub open spec fn group_subset(big: Seq<usize>, g: Seq<usize>) -> bool {
    forall|kk: int| 0 <= kk < g.len() ==> big.contains(#[trigger] g[kk])
}

/// The whole of group `g` lies inside one group of `out`.
pub open spec fn subset_of_some_group(out: Seq<Seq<usize>>, g: Seq<usize>) -> bool {
    exists|j: int| 0 <= j < out.len() && #[trigger] group_subset(out[j], g)
}

proof fn lemma_subset_shift(h: Seq<usize>, rest: Seq<Seq<usize>>, g: Seq<usize>)
    requires
        subset_of_some_group(rest, g),
    ensures
        subset_of_some_group(seq![h] + rest, g),
{
    let j = choose|j: int| 0 <= j < rest.len() && #[trigger] group_subset(rest[j], g);
    assert((seq![h] + rest)[j + 1] == rest[j]);
    assert(group_subset((seq![h] + rest)[j + 1], g));
}

proof fn lemma_merge_refines(gs: Seq<Seq<usize>>, g1: Seq<usize>, g2: Seq<usize>, i: int)
    requires
        spec_merge_groups(gs, g1, g2) is Ok,
        0 <= i < gs.len(),
    ensures
        subset_of_some_group(spec_merge_groups(gs, g1, g2)->Ok_0, gs[i]),
    decreases gs.len(),
{
    let out = spec_merge_groups(gs, g1, g2)->Ok_0;
    if gs[0] == g1 {
        let rest = spec_merge_groups(gs.skip(2), g1, g2)->Ok_0;
        assert(out == seq![g1 + g2] + rest);
        if i == 0 {
            assert forall|kk: int| 0 <= kk < gs[0].len() implies out[0].contains(
                #[trigger] gs[0][kk],
            ) by {
                assert((g1 + g2)[kk] == g1[kk]);
            }
            assert(group_subset(out[0], gs[i]));
        } else if i == 1 {
            assert(gs[1] == g2);
            assert forall|kk: int| 0 <= kk < gs[1].len() implies out[0].contains(
                #[trigger] gs[1][kk],
            ) by {
                assert((g1 + g2)[g1.len() + kk] == g2[kk]);
            }
            assert(group_subset(out[0], gs[i]));
        } else {
            assert(gs.skip(2)[i - 2] == gs[i]);
            lemma_merge_refines(gs.skip(2), g1, g2, i - 2);
            assert(subset_of_some_group(rest, gs[i]));
            lemma_subset_shift(g1 + g2, rest, gs[i]);
            assert(out == seq![g1 + g2] + rest);
        }
    } else {
        let rest = spec_merge_groups(gs.skip(1), g1, g2)->Ok_0;
        assert(out == seq![gs[0]] + rest);
        if i == 0 {
            assert forall|kk: int| 0 <= kk < gs[0].len() implies out[0].contains(
                #[trigger] gs[0][kk],
            ) by {
                assert(out[0] == gs[0]);
            }
            assert(group_subset(out[0], gs[i]));
        } else {
            assert(gs.skip(1)[i - 1] == gs[i]);
            lemma_merge_refines(gs.skip(1), g1, g2, i - 1);
            assert(subset_of_some_group(rest, gs[i]));
            lemma_subset_shift(gs[0], rest, gs[i]);
            assert(out == seq![gs[0]] + rest);
        }
    }
}

/// Law: merges are monotonic: every group of a step's starting partition
/// lies, whole, inside one group of the partition after the step's pass;
/// once unioned, qubits never split.
pub proof fn lemma_groups_never_split(
    prev: Seq<Seq<usize>>,
    gates: Seq<PlacementView>,
    k: int,
    i: int,
)
    requires
        spec_entangle_step(prev, gates, k) is Ok,
        0 <= k,
        0 <= i < prev.len(),
    ensures
        subset_of_some_group(spec_entangle_step(prev, gates, k)->Ok_0, prev[i]),
    decreases k,
{
    let out = spec_entangle_step(prev, gates, k)->Ok_0;
    if k <= 0 {
        assert(out == prev);
        assert(group_subset(out[i], prev[i])) by {
            assert forall|kk: int| 0 <= kk < prev[i].len() implies out[i].contains(
                #[trigger] prev[i][kk],
            ) by {
                assert(out[i] == prev[i]);
            }
        }
    } else {
        assert(spec_entangle_step(prev, gates, k - 1) is Ok);
        lemma_groups_never_split(prev, gates, k - 1, i);
        let cur = spec_entangle_step(prev, gates, k - 1)->Ok_0;
        let j = choose|j: int| 0 <= j < cur.len() && #[trigger] group_subset(cur[j], prev[i]);
        let g = gates[k - 1];
        if g.qubits.len() == 2 {
            match (find_group(cur, g.qubits[0]), find_group(cur, g.qubits[1])) {
                (Some(ga), Some(gb)) => {
                    if ga != gb {
                        lemma_merge_refines(cur, ga, gb, j);
                        let rest = spec_merge_groups(cur, ga, gb)->Ok_0;
                        let j2 = choose|j2: int|
                            0 <= j2 < rest.len() && #[trigger] group_subset(rest[j2], cur[j]);
                        assert(group_subset(out[j2], prev[i])) by {
                            assert forall|kk: int|
                                0 <= kk < prev[i].len() implies out[j2].contains(
                                #[trigger] prev[i][kk],
                            ) by {
                                assert(cur[j].contains(prev[i][kk]));
                                let kx = choose|kx: int|
                                    0 <= kx < cur[j].len() && cur[j][kx] == prev[i][kk];
                                assert(rest[j2].contains(cur[j][kx]));
                            }
                        }
                    } else {
                        assert(out == cur);
                        assert(group_subset(out[j], prev[i]));
                    }
                },
                _ => {
                    assert(false);
                },
            }
        } else {
            assert(out == cur);
            assert(group_subset(out[j], prev[i]));
        }
    }
}

/// The whole-step reduction against the step's own partition yields exactly
/// one placement per group, tagged with that group's qubit run.
pub proof fn lemma_combined_step_tags(
    gates: Seq<PlacementView>,
    groups: Seq<Seq<usize>>,
    n: int,
)
    requires
        placements_cover_from(gates, 0, n),
        groups_cover_from(groups, 0, n),
        gates.len() >= 1,
        1 <= n <= MAX_QUBITS,
        forall|i: int| 0 <= i < gates.len() ==> placement_in_one_group(groups, #[trigger] gates[i]),
    ensures
        spec_combine_step(gates, groups, gates.len() as int) is Ok,
        spec_combine_step(gates, groups, gates.len() as int)->Ok_0.len() == groups.len(),
        forall|i: int|
            0 <= i < groups.len() ==> (#[trigger] spec_combine_step(
                gates,
                groups,
                gates.len() as int,
            )->Ok_0[i]).qubits == groups[i],
{
    let k = gates.len() as int;
    lemma_combine_runs_are_groups(gates, groups, k, n);
    lemma_placements_end(gates, 0, n, k);
    let acc = spec_combine_step(gates, groups, k)->Ok_0;
    let m = choose|m: int|
        {
            &&& 0 <= m < groups.len()
            &&& acc.len() == m + 1
            &&& (forall|i: int| 0 <= i < m ==> (#[trigger] acc[i]).qubits == groups[i])
            &&& acc[m].qubits.len() >= 1
            &&& acc[m].qubits[0] == groups[m][0]
            &&& (forall|kk: int|
                0 <= kk < acc[m].qubits.len() ==> (#[trigger] acc[m].qubits[kk]) == groups[m][kk])
            &&& acc[m].qubits.len() <= groups[m].len()
            &&& placements_end(gates, k) == groups[m][0] + acc[m].qubits.len()
        };
    assert(placements_end(gates, k) == n);
    lemma_groups_start(groups, 0, n, m);
    lemma_groups_end(groups, 0, n, m);
    assert(groups[m][0] as int == groups_end(groups, m));
    assert(groups_end(groups, m) + groups[m].len() <= n);
    assert(acc[m].qubits.len() == groups[m].len());
    assert(m + 1 == groups.len()) by {
        if m + 1 < groups.len() {
            lemma_groups_contiguous(groups, 0, n, m + 1);
            lemma_groups_start(groups, 0, n, m + 1);
            lemma_groups_end(groups, 0, n, m + 1);
            assert(groups[m + 1][0] as int == groups_end(groups, m + 1));
            assert(groups_end(groups, m + 1) == n);
            assert(groups_end(groups, m + 1) + groups[m + 1].len() <= n);
            assert(groups[m + 1].len() >= 1);
        }
    }
    assert(acc[m].qubits =~~= groups[m]);
    assert forall|i: int| 0 <= i < groups.len() implies (#[trigger] acc[i]).qubits
        == groups[i] by {
        if i == m {
            assert(acc[m].qubits == groups[m]);
        }
    }
}

proof fn lemma_combine_upto_len(
    circ: Seq<Seq<PlacementView>>,
    groups: Seq<Seq<Seq<usize>>>,
    t: int,
)
    requires
        1 <= t,
        spec_combine_upto(circ, groups, t) is Ok,
    ensures
        spec_combine_upto(circ, groups, t)->Ok_0.len() == t,
    decreases t,
{
    if t > 1 {
        assert(spec_combine_upto(circ, groups, t - 1) is Ok);
        lemma_combine_upto_len(circ, groups, t - 1);
    }
}

/// The reduced circuit, step by step: step 0 unreduced, later steps reduced
/// against their own partitions.
pub proof fn lemma_combine_upto_index(
    circ: Seq<Seq<PlacementView>>,
    groups: Seq<Seq<Seq<usize>>>,
    t: int,
    tt: int,
)
    requires
        1 <= t,
        0 <= tt < t,
        spec_combine_upto(circ, groups, t) is Ok,
    ensures
        spec_combine_upto(circ, groups, t)->Ok_0.len() == t,
        tt == 0 ==> spec_combine_upto(circ, groups, t)->Ok_0[0] == circ[0],
        tt >= 1 ==> spec_combine_step(circ[tt], groups[tt], circ[tt].len() as int) is Ok
            && spec_combine_upto(circ, groups, t)->Ok_0[tt] == spec_combine_step(
            circ[tt],
            groups[tt],
            circ[tt].len() as int,
        )->Ok_0,
    decreases t,
{
    lemma_combine_upto_len(circ, groups, t);
    if t == 1 {
    } else {
        assert(spec_combine_upto(circ, groups, t - 1) is Ok);
        lemma_combine_upto_len(circ, groups, t - 1);
        if tt < t - 1 {
            lemma_combine_upto_index(circ, groups, t - 1, tt);
        }
    }
}

} // verus!
