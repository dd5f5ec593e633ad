use vstd::prelude::*;

use crate::amplitude::{amp_in_range, Amplitude, Zw, zw_one, zw_zero};
use crate::circuit_parser::{
    build_circuit_from_data, grid_wf, group_subset, groups_cover_from, in_some_group,
    placements_cover_from, placement_wf, spec_build, subset_of_some_group, ParsedCircuit,
    QuantumCircuitError, UnparsedCircuit,
};
use crate::quantum_gate::{PlacementView, QuantumGateWrapper, MAX_QUBITS};
use crate::quantum_state::{
    apply_ok, kron_vec, kron_vec_fits, mat_vec, state_wf, QuantumState, StateView,
};
use vstd::arithmetic::power2::{lemma2_to64, lemma_pow2_adds, lemma_pow2_pos, pow2};

verus! {

/// Model of one state fragment: its exact amplitude column, denominator
/// exponent, and the ascending qubit rows it represents.
#[verifier::ext_equal]
pub ghost struct FragView {
    pub amps: Seq<Zw>,
    pub scale: nat,
    pub qubits: Seq<usize>,
}

/// One state fragment: the joint state of one entangled group, tagged with
/// the ordered qubit rows it represents.
#[derive(Debug)]
pub struct QuantumStateWrapper {
    pub state: QuantumState,
    pub qubits: Vec<usize>,
}

impl View for QuantumStateWrapper {
    type V = FragView;

    open spec fn view(&self) -> FragView {
        FragView { amps: self.state@.amps, scale: self.state@.scale, qubits: self.qubits@ }
    }
}

/// The snapshot after one time step: all fragments, in ascending qubit order.
#[derive(Debug)]
pub struct QuantumStep {
    pub states: Vec<QuantumStateWrapper>,
}

impl View for QuantumStep {
    type V = Seq<FragView>;

    open spec fn view(&self) -> Seq<FragView> {
        Seq::new(self.states@.len(), |i: int| self.states@[i]@)
    }
}

pub open spec fn frag_wf(f: FragView) -> bool {
    &&& f.amps.len() >= 1
    &&& forall|i: int| 0 <= i < f.amps.len() ==> amp_in_range(#[trigger] f.amps[i])
}

pub open spec fn step_wf(fs: Seq<FragView>) -> bool {
    forall|i: int| 0 <= i < fs.len() ==> frag_wf(#[trigger] fs[i])
}

/// Some qubit row occurs in both lists.
pub open spec fn seqs_intersect(a: Seq<usize>, b: Seq<usize>) -> bool {
    exists|i: int| 0 <= i < a.len() && b.contains(a[i])
}

fn vec_contains(v: &Vec<usize>, x: usize) -> (r: bool)
    ensures
        r == v@.contains(x),
{
    let mut k: usize = 0;
    let mut found = false;
    while k < v.len() && !found
        invariant
            k <= v@.len(),
            found <==> exists|j: int| 0 <= j < k && v@[j] == x,
        decreases v@.len() - k,
    {
        if v[k] == x {
            found = true;
        }
        k = k + 1;
    }
    proof {
        if !found {
            assert(!v@.contains(x)) by {
                if v@.contains(x) {
                    let j = choose|j: int| 0 <= j < v@.len() && v@[j] == x;
                    assert(exists|j2: int| 0 <= j2 < k && v@[j2] == x);
                }
            }
        }
    }
    found
}

fn qubits_intersect(a: &Vec<usize>, b: &Vec<usize>) -> (r: bool)
    ensures
        r == seqs_intersect(a@, b@),
{
    let mut i: usize = 0;
    let mut res = false;
    while i < a.len() && !res
        invariant
            i <= a@.len(),
            res <==> exists|j: int| 0 <= j < i && b@.contains(a@[j]),
        decreases a@.len() - i,
    {
        if vec_contains(b, a[i]) {
            res = true;
        }
        i = i + 1;
    }
    proof {
        if !res {
            assert(!seqs_intersect(a@, b@)) by {
                if seqs_intersect(a@, b@) {
                    let j = choose|j: int| 0 <= j < a@.len() && b@.contains(a@[j]);
                    assert(exists|j2: int| 0 <= j2 < i && b@.contains(a@[j2]));
                }
            }
        }
    }
    res
}

fn copy_state(s: &QuantumState) -> (r: QuantumState)
    ensures
        r@ == s@,
{
    let mut col: Vec<Amplitude> = Vec::new();
    let mut i: usize = 0;
    while i < s.col.len()
        invariant
            i <= s.col@.len(),
            col@.len() == i,
            forall|j: int| 0 <= j < i ==> #[trigger] col@[j] == s.col@[j],
        decreases s.col@.len() - i,
    {
        col.push(s.col[i]);
        i = i + 1;
    }
    let r = QuantumState { col, scale: s.scale };
    proof {
        assert(r@.amps =~~= s@.amps);
        assert(r@ =~= s@);
    }
    r
}

/// Tensoring with the single-entry identity vector is neutral.
proof fn lemma_kron_one(x: Seq<Zw>)
    requires
        x.len() >= 1,
    ensures
        kron_vec(seq![zw_one()], x) == x,
        kron_vec_fits(seq![zw_one()], x) <==> (forall|i: int|
            0 <= i < x.len() ==> amp_in_range(#[trigger] x[i])),
{
    assert(kron_vec(seq![zw_one()], x) =~~= x) by {
        assert(seq![zw_one()].len() * x.len() == x.len()) by (nonlinear_arith);
        assert forall|i: int| 0 <= i < x.len() implies #[trigger] kron_vec(seq![zw_one()], x)[i]
            == x[i] by {
            assert(i / x.len() as int == 0 && i % x.len() as int == i) by (nonlinear_arith)
                requires
                    0 <= i < x.len(),
            ;
            let z = x[i];
            assert(1 * z.a - 0 * z.d - 0 * z.c - 0 * z.b == z.a) by (nonlinear_arith);
            assert(1 * z.b + 0 * z.a - 0 * z.d - 0 * z.c == z.b) by (nonlinear_arith);
            assert(1 * z.c + 0 * z.b + 0 * z.a - 0 * z.d == z.c) by (nonlinear_arith);
            assert(1 * z.d + 0 * z.c + 0 * z.b + 0 * z.a == z.d) by (nonlinear_arith);
            assert(crate::amplitude::zw_times(zw_one(), z) =~= z);
        }
    }
    assert(seq![zw_one()].len() * x.len() == x.len()) by (nonlinear_arith);
}

/// The tensor of the fragments among the first `k` that the placement's
/// qubits intersect, in snapshot order, starting from the neutral vector;
/// `None` reports a value outside the representation.
pub open spec fn spec_tensor_prefix(prev: Seq<FragView>, qubits: Seq<usize>, k: int) -> Option<
    (Seq<Zw>, nat),
>
    decreases k,
{
    if k <= 0 {
        Some((seq![zw_one()], 0nat))
    } else {
        match spec_tensor_prefix(prev, qubits, k - 1) {
            None => None,
            Some(acc) => {
                let f = prev[k - 1];
                if seqs_intersect(f.qubits, qubits) {
                    if acc.0.len() * f.amps.len() <= usize::MAX && acc.1 + f.scale <= u64::MAX
                        && kron_vec_fits(acc.0, f.amps) {
                        Some((kron_vec(acc.0, f.amps), (acc.1 + f.scale) as nat))
                    } else {
                        None
                    }
                } else {
                    Some(acc)
                }
            },
        }
    }
}

proof fn lemma_tensor_none_stays(prev: Seq<FragView>, qubits: Seq<usize>, k: int, t: int)
    requires
        0 <= k <= t,
        spec_tensor_prefix(prev, qubits, k) is None,
    ensures
        spec_tensor_prefix(prev, qubits, t) is None,
    decreases t - k,
{
    if t > k {
        lemma_tensor_none_stays(prev, qubits, k, t - 1);
    }
}

/// The new fragment a placement produces from the previous snapshot: the
/// consumed fragments tensored in order, then the operator applied.  The
/// dimension test is the defensive bookkeeping check.
pub open spec fn spec_calc(prev: Seq<FragView>, p: PlacementView) -> Result<
    FragView,
    QuantumCircuitError,
> {
    match spec_tensor_prefix(prev, p.qubits, prev.len() as int) {
        None => Err(QuantumCircuitError::AmplitudeOverflow),
        Some(acc) => if p.gate.mat.len() != acc.0.len() {
            Err(QuantumCircuitError::InternalInvariantViolation)
        } else if !apply_ok(p.gate, StateView { amps: acc.0, scale: acc.1 }) {
            Err(QuantumCircuitError::AmplitudeOverflow)
        } else {
            Ok(
                FragView {
                    amps: mat_vec(p.gate.mat, acc.0),
                    scale: (acc.1 + p.gate.scale) as nat,
                    qubits: p.qubits,
                },
            )
        },
    }
}

/// The snapshot after the first `k` placements of a step, one new fragment
/// per placement.
pub open spec fn spec_step_states(
    prev: Seq<FragView>,
    gates: Seq<PlacementView>,
    k: int,
) -> Result<Seq<FragView>, QuantumCircuitError>
    decreases k,
{
    if k <= 0 {
        Ok(seq![])
    } else {
        match spec_step_states(prev, gates, k - 1) {
            Err(e) => Err(e),
            Ok(acc) => match spec_calc(prev, gates[k - 1]) {
                Err(e) => Err(e),
                Ok(f) => Ok(acc.push(f)),
            },
        }
    }
}

/// The initial snapshot: one singleton |0> fragment per qubit row.
pub open spec fn spec_initial(n: nat) -> Seq<FragView> {
    Seq::new(
        n,
        |i: int| FragView { amps: seq![zw_one(), zw_zero()], scale: 0, qubits: seq![i as usize] },
    )
}

/// The snapshots after the first `t` steps, beginning with the initial one.
pub open spec fn spec_sim_upto(circ: Seq<Seq<PlacementView>>, n: nat, t: int) -> Result<
    Seq<Seq<FragView>>,
    QuantumCircuitError,
>
    decreases t,
{
    if t <= 0 {
        Ok(seq![spec_initial(n)])
    } else {
        match spec_sim_upto(circ, n, t - 1) {
            Err(e) => Err(e),
            Ok(acc) => match spec_step_states(acc.last(), circ[t - 1], circ[t - 1].len() as int) {
                Err(e) => Err(e),
                Ok(fs) => Ok(acc.push(fs)),
            },
        }
    }
}

proof fn lemma_step_states_err_stays(
    prev: Seq<FragView>,
    gates: Seq<PlacementView>,
    k: int,
    t: int,
    e: QuantumCircuitError,
)
    requires
        0 <= k <= t,
        spec_step_states(prev, gates, k) == Err::<Seq<FragView>, QuantumCircuitError>(e),
    ensures
        spec_step_states(prev, gates, t) == Err::<Seq<FragView>, QuantumCircuitError>(e),
    decreases t - k,
{
    if t > k {
        lemma_step_states_err_stays(prev, gates, k, t - 1, e);
    }
}

proof fn lemma_sim_upto_err_stays(
    circ: Seq<Seq<PlacementView>>,
    n: nat,
    s: int,
    t: int,
    e: QuantumCircuitError,
)
    requires
        0 <= s <= t,
        spec_sim_upto(circ, n, s) == Err::<Seq<Seq<FragView>>, QuantumCircuitError>(e),
    ensures
        spec_sim_upto(circ, n, t) == Err::<Seq<Seq<FragView>>, QuantumCircuitError>(e),
    decreases t - s,
{
    if t > s {
        lemma_sim_upto_err_stays(circ, n, s, t - 1, e);
    }
}

/// The initial snapshot: every qubit row starts in its own |0> fragment.
pub fn initialize_states(num_qubits: usize) -> (r: QuantumStep)
    requires
        1 <= num_qubits <= MAX_QUBITS,
    ensures
        r@ == spec_initial(num_qubits as nat),
        step_wf(r@),
{
    let mut states: Vec<QuantumStateWrapper> = Vec::new();
    let mut i: usize = 0;
    while i < num_qubits
        invariant
            i <= num_qubits <= MAX_QUBITS,
            states@.len() == i,
            forall|j: int|
                0 <= j < i ==> (#[trigger] states@[j])@ == spec_initial(num_qubits as nat)[j],
        decreases num_qubits - i,
    {
        let mut bits: Vec<u8> = Vec::new();
        bits.push(0);
        let state = QuantumState::new(&bits);
        let mut qubits: Vec<usize> = Vec::new();
        qubits.push(i);
        let w = QuantumStateWrapper { state, qubits };
        proof {
            lemma2_to64();
            assert(bits@ =~~= seq![0u8]);
            assert(bits@.drop_last() =~~= Seq::<u8>::empty());
            assert(crate::quantum_state::bits_index(Seq::<u8>::empty()) == 0);
            assert(crate::quantum_state::bits_index(bits@) == 0);
            assert(w@.amps =~~= seq![zw_one(), zw_zero()]);
            assert(w@ =~= spec_initial(num_qubits as nat)[i as int]);
        }
        states.push(w);
        i = i + 1;
    }
    let r = QuantumStep { states };
    proof {
        assert(r@ =~~= spec_initial(num_qubits as nat));
        assert forall|j: int| 0 <= j < r@.len() implies frag_wf(#[trigger] r@[j]) by {}
    }
    r
}

/// The new fragment a placement produces: collect the fragments its qubits
/// intersect, tensor them in snapshot order, and apply the operator by exact
/// matrix-vector multiplication.  The fragment is tagged with the placement's
/// qubit list.
pub fn calculate_qubits_state_after_gate(
    states_in_prev_step: &QuantumStep,
    gate_wrapper: &QuantumGateWrapper,
) -> (r: Result<QuantumStateWrapper, QuantumCircuitError>)
    requires
        step_wf(states_in_prev_step@),
        placement_wf(gate_wrapper@),
    ensures
        r matches Ok(w) ==> {
            &&& spec_calc(states_in_prev_step@, gate_wrapper@) == Ok::<FragView,
                QuantumCircuitError,
            >(w@)
            &&& frag_wf(w@)
        },
        r matches Err(e) ==> spec_calc(states_in_prev_step@, gate_wrapper@) == Err::<FragView,
            QuantumCircuitError,
        >(e),
{
    let ghost pv = states_in_prev_step@;
    let ghost p = gate_wrapper@;
    let count = states_in_prev_step.states.len();
    let mut current: Option<QuantumState> = None;
    let mut j: usize = 0;
    while j < count
        invariant
            pv == states_in_prev_step@,
            p == gate_wrapper@,
            step_wf(pv),
            count == pv.len(),
            j <= count,
            current matches Some(cs) ==> {
                &&& spec_tensor_prefix(pv, p.qubits, j as int) == Some((cs@.amps, cs@.scale))
                &&& state_wf(cs@)
            },
            current is None ==> spec_tensor_prefix(pv, p.qubits, j as int) == Some(
                (seq![zw_one()], 0nat),
            ),
        decreases count - j,
    {
        let frag = &states_in_prev_step.states[j];
        proof {
            assert(frag@ == pv[j as int]);
            assert(frag_wf(pv[j as int]));
        }
        if qubits_intersect(&frag.qubits, &gate_wrapper.qubits) {
            match current {
                None => {
                    let flen = frag.state.col.len();
                    proof {
                        lemma_kron_one(pv[j as int].amps);
                        assert(seq![zw_one()].len() * pv[j as int].amps.len()
                            == pv[j as int].amps.len()) by (nonlinear_arith);
                        assert(flen == pv[j as int].amps.len());
                        assert(pv[j as int].amps.len() <= usize::MAX);
                        assert(pv[j as int].scale <= u64::MAX);
                    }
                    current = Some(copy_state(&frag.state));
                },
                Some(cs) => {
                    match cs.kronecker(&frag.state) {
                        Some(next) => {
                            current = Some(next);
                        },
                        None => {
                            proof {
                                assert(spec_tensor_prefix(pv, p.qubits, j as int + 1) is None);
                                lemma_tensor_none_stays(pv, p.qubits, j as int + 1, count as int);
                            }
                            return Err(QuantumCircuitError::AmplitudeOverflow);
                        },
                    }
                },
            }
        }
        j = j + 1;
    }
    let combined = match current {
        None => {
            proof {
                assert(p.gate.mat.len() == pow2(p.gate.size));
                lemma_pow2_pos(p.gate.size);
                lemma2_to64();
                vstd::arithmetic::power2::lemma_pow2_strictly_increases(0, p.gate.size);
                assert(p.gate.mat.len() >= 2);
            }
            return Err(QuantumCircuitError::InternalInvariantViolation);
        },
        Some(cs) => cs,
    };
    if combined.col.len() != gate_wrapper.gate.matrix.len() {
        proof {
            assert(gate_wrapper.gate.matrix@.len() == p.gate.mat.len());
        }
        return Err(QuantumCircuitError::InternalInvariantViolation);
    }
    proof {
        assert(gate_wrapper.gate.matrix@.len() == p.gate.mat.len());
    }
    match combined.apply_gate(&gate_wrapper.gate) {
        None => Err(QuantumCircuitError::AmplitudeOverflow),
        Some(after) => {
            let qubits = crate::circuit_parser::copy_usizes(&gate_wrapper.qubits);
            let w = QuantumStateWrapper { state: after, qubits };
            proof {
                assert(w@ =~= spec_calc(pv, p)->Ok_0);
            }
            Ok(w)
        },
    }
}

/// Runs the circuit step by step: each step maps every (combined) placement
/// to the new fragment it produces from the previous snapshot; fragments
/// untouched by a placement are consumed by the identity placements covering
/// them.  The result holds one snapshot per step, the initial one first.
pub fn simulate_circuit(circuit: &ParsedCircuit, num_qubits: usize) -> (r: Result<
    Vec<QuantumStep>,
    QuantumCircuitError,
>)
    requires
        1 <= num_qubits <= MAX_QUBITS,
        circuit@.len() >= 1,
        forall|t: int|
            0 <= t < circuit@.len() ==> placements_cover_from(
                #[trigger] circuit@[t],
                0,
                num_qubits as int,
            ),
    ensures
        r matches Ok(v) ==> {
            &&& spec_sim_upto(circuit@, num_qubits as nat, circuit@.len() as int) == Ok::<
                Seq<Seq<FragView>>,
                QuantumCircuitError,
            >(Seq::new(v@.len(), |i: int| v@[i]@))
            &&& v@.len() == circuit@.len() + 1
            &&& forall|t: int| 0 <= t < v@.len() ==> step_wf((#[trigger] v@[t])@)
        },
        r matches Err(e) ==> spec_sim_upto(circuit@, num_qubits as nat, circuit@.len() as int)
            == Err::<Seq<Seq<FragView>>, QuantumCircuitError>(e),
{
    let ghost cv = circuit@;
    let ghost n = num_qubits as nat;
    let steps = circuit.circuit.len();
    let mut state_list: Vec<QuantumStep> = Vec::new();
    state_list.push(initialize_states(num_qubits));
    proof {
        assert(Seq::new(state_list@.len(), |i: int| state_list@[i]@) =~~= seq![
            spec_initial(n),
        ]);
    }
    let mut t: usize = 0;
    while t < steps
        invariant
            cv == circuit@,
            n == num_qubits as nat,
            1 <= num_qubits <= MAX_QUBITS,
            steps == cv.len() == circuit.circuit@.len(),
            forall|tt: int|
                0 <= tt < steps ==> placements_cover_from(#[trigger] cv[tt], 0, num_qubits as int),
            t <= steps,
            state_list@.len() == t + 1,
            spec_sim_upto(cv, n, t as int) == Ok::<Seq<Seq<FragView>>, QuantumCircuitError>(
                Seq::new(state_list@.len(), |i: int| state_list@[i]@),
            ),
            forall|tt: int| 0 <= tt < state_list@.len() ==> step_wf((#[trigger] state_list@[tt])@),
        decreases steps - t,
    {
        let ghost acc = Seq::new(state_list@.len(), |i: int| state_list@[i]@);
        let last_index = state_list.len() - 1;
        let prev_ref = &state_list[last_index];
        let ghost prevv = prev_ref@;
        proof {
            assert(acc.last() == prevv);
            crate::circuit_parser::lemma_cover_all_placements_wf(cv[t as int], 0, num_qubits as int);
        }
        let gates_in_step = &circuit.circuit[t];
        let ghost gv = cv[t as int];
        proof {
            assert(gates_in_step@ == gv);
        }
        let mut states_in_step: Vec<QuantumStateWrapper> = Vec::new();
        proof {
            assert(Seq::new(states_in_step@.len(), |i: int| states_in_step@[i]@) =~~= Seq::<
                FragView,
            >::empty());
        }
        let gate_count = gates_in_step.gates.len();
        let mut gi: usize = 0;
        while gi < gate_count
            invariant
                cv == circuit@,
                n == num_qubits as nat,
                steps == cv.len(),
                t < steps,
                spec_sim_upto(cv, n, t as int) == Ok::<Seq<Seq<FragView>>, QuantumCircuitError>(
                    acc,
                ),
                acc.last() == prevv,
                prev_ref@ == prevv,
                step_wf(prevv),
                gates_in_step@ == gv,
                gv == cv[t as int],
                gate_count == gv.len() == gates_in_step.gates@.len(),
                forall|i: int| 0 <= i < gv.len() ==> placement_wf(#[trigger] gv[i]),
                gi <= gate_count,
                spec_step_states(prevv, gv, gi as int) == Ok::<Seq<FragView>, QuantumCircuitError>(
                    Seq::new(states_in_step@.len(), |i: int| states_in_step@[i]@),
                ),
                states_in_step@.len() == gi,
                forall|i: int| 0 <= i < gi ==> frag_wf((#[trigger] states_in_step@[i])@),
            decreases gate_count - gi,
        {
            let ghost sacc = Seq::new(states_in_step@.len(), |i: int| states_in_step@[i]@);
            let gate = &gates_in_step.gates[gi];
            proof {
                assert(gate@ == gv[gi as int]);
            }
            match calculate_qubits_state_after_gate(prev_ref, gate) {
                Err(e) => {
                    proof {
                        lemma_step_states_err_stays(prevv, gv, gi as int + 1, gate_count as int, e);
                        lemma_sim_upto_err_stays(cv, n, t as int + 1, steps as int, e);
                    }
                    return Err(e);
                },
                Ok(w) => {
                    states_in_step.push(w);
                    proof {
                        assert(Seq::new(states_in_step@.len(), |i: int| states_in_step@[i]@)
                            =~~= sacc.push(states_in_step@[gi as int]@));
                    }
                    gi = gi + 1;
                },
            }
        }
        state_list.push(QuantumStep { states: states_in_step });
        proof {
            assert(Seq::new(state_list@.len(), |i: int| state_list@[i]@) =~~= acc.push(
                state_list@[t as int + 1]@,
            ));
            assert(state_list@[t as int + 1]@ =~~= Seq::new(
                state_list@[t as int + 1].states@.len(),
                |i: int| state_list@[t as int + 1].states@[i]@,
            ));
        }
        t = t + 1;
    }
    Ok(state_list)
}

/// The tensor of all fragments of one snapshot, in order; an empty snapshot
/// is the defensive bookkeeping outcome.
pub open spec fn spec_combine_all(fs: Seq<FragView>, k: int) -> Result<
    (Seq<Zw>, nat),
    QuantumCircuitError,
>
    decreases k,
{
    if k <= 0 {
        Err(QuantumCircuitError::InternalInvariantViolation)
    } else if k == 1 {
        Ok((fs[0].amps, fs[0].scale))
    } else {
        match spec_combine_all(fs, k - 1) {
            Err(e) => Err(e),
            Ok(acc) => {
                let f = fs[k - 1];
                if acc.0.len() * f.amps.len() <= usize::MAX && acc.1 + f.scale <= u64::MAX
                    && kron_vec_fits(acc.0, f.amps) {
                    Ok((kron_vec(acc.0, f.amps), (acc.1 + f.scale) as nat))
                } else {
                    Err(QuantumCircuitError::AmplitudeOverflow)
                }
            },
        }
    }
}

proof fn lemma_combine_all_err_stays(
    fs: Seq<FragView>,
    k: int,
    t: int,
    e: QuantumCircuitError,
)
    requires
        1 <= k <= t,
        spec_combine_all(fs, k) == Err::<(Seq<Zw>, nat), QuantumCircuitError>(e),
    ensures
        spec_combine_all(fs, t) == Err::<(Seq<Zw>, nat), QuantumCircuitError>(e),
    decreases t - k,
{
    if t > k {
        lemma_combine_all_err_stays(fs, k, t - 1, e);
    }
}

/// Tensors all fragments of a snapshot into one joint column, in ascending
/// qubit order.
pub fn combine_states(states: &QuantumStep) -> (r: Result<QuantumState, QuantumCircuitError>)
    requires
        step_wf(states@),
    ensures
        r matches Ok(st) ==> {
            &&& spec_combine_all(states@, states@.len() as int) == Ok::<(Seq<Zw>, nat),
                QuantumCircuitError,
            >((st@.amps, st@.scale))
            &&& state_wf(st@)
        },
        r matches Err(e) ==> spec_combine_all(states@, states@.len() as int) == Err::<
            (Seq<Zw>, nat),
            QuantumCircuitError,
        >(e),
{
    let ghost fs = states@;
    let count = states.states.len();
    if count == 0 {
        return Err(QuantumCircuitError::InternalInvariantViolation);
    }
    let mut current = copy_state(&states.states[0].state);
    proof {
        assert(states.states@[0]@.amps == current@.amps);
        assert(frag_wf(fs[0]));
        assert(state_wf(current@));
    }
    let mut k: usize = 1;
    while k < count
        invariant
            fs == states@,
            step_wf(fs),
            count == fs.len(),
            1 <= k <= count,
            spec_combine_all(fs, k as int) == Ok::<(Seq<Zw>, nat), QuantumCircuitError>(
                (current@.amps, current@.scale),
            ),
            state_wf(current@),
        decreases count - k,
    {
        let frag = &states.states[k];
        proof {
            assert(frag@ == fs[k as int]);
            assert(frag_wf(fs[k as int]));
        }
        match current.kronecker(&frag.state) {
            Some(next) => {
                current = next;
            },
            None => {
                proof {
                    lemma_combine_all_err_stays(
                        fs,
                        k as int + 1,
                        count as int,
                        QuantumCircuitError::AmplitudeOverflow,
                    );
                }
                return Err(QuantumCircuitError::AmplitudeOverflow);
            },
        }
        k = k + 1;
    }
    Ok(current)
}

/// The index whose low `n` bits are those of `i` reversed: the adapter's
/// bit-order change between internal (qubit 0 most significant) and external
/// (qubit 0 least significant) conventions.
pub open spec fn spec_bitrev(n: nat, i: int) -> int
    decreases n,
{
    if n == 0 {
        0
    } else {
        spec_bitrev((n - 1) as nat, i / 2) + (i % 2) * pow2((n - 1) as nat)
    }
}

pub proof fn lemma_bitrev_range(n: nat, i: int)
    requires
        0 <= i < pow2(n),
    ensures
        0 <= spec_bitrev(n, i) < pow2(n),
    decreases n,
{
    if n == 0 {
    } else {
        lemma_pow2_adds((n - 1) as nat, 1);
        lemma2_to64();
        let p1 = pow2((n - 1) as nat) as int;
        assert(0 <= i / 2 && i / 2 < p1) by (nonlinear_arith)
            requires
                0 <= i,
                i < 2 * p1,
        ;
        lemma_bitrev_range((n - 1) as nat, i / 2);
        assert(0 <= i % 2 <= 1);
        lemma_pow2_pos((n - 1) as nat);
        assert(0 <= (i % 2) * p1 && (i % 2) * p1 <= p1) by (nonlinear_arith)
            requires
                0 <= i % 2 <= 1,
                0 < p1,
        ;
    }
}

fn pow2_usize(e: usize) -> (r: usize)
    requires
        e <= MAX_QUBITS,
    ensures
        r == pow2(e as nat),
{
    let mut k: usize = 0;
    let mut r: usize = 1;
    proof {
        lemma2_to64();
    }
    while k < e
        invariant
            k <= e <= MAX_QUBITS,
            r == pow2(k as nat),
        decreases e - k,
    {
        proof {
            lemma_pow2_adds(k as nat, 1);
            lemma2_to64();
            vstd::arithmetic::power2::lemma_pow2_strictly_increases(k as nat, MAX_QUBITS as nat);
        }
        r = r * 2;
        k = k + 1;
    }
    r
}

fn bitrev_usize(n: usize, i: usize) -> (r: usize)
    requires
        n <= MAX_QUBITS,
        i < pow2(n as nat),
    ensures
        r as int == spec_bitrev(n as nat, i as int),
        r < pow2(n as nat),
    decreases n,
{
    proof {
        lemma_bitrev_range(n as nat, i as int);
    }
    if n == 0 {
        0
    } else {
        proof {
            lemma_pow2_adds((n - 1) as nat, 1);
            lemma2_to64();
            let ii = i as int;
            let p1 = pow2((n - 1) as nat) as int;
            assert(0 <= ii / 2 && ii / 2 < p1) by (nonlinear_arith)
                requires
                    0 <= ii,
                    ii < 2 * p1,
            ;
            lemma_pow2_pos((n - 1) as nat);
            lemma_bitrev_range((n - 1) as nat, i as int / 2);
        }
        let half = bitrev_usize(n - 1, i / 2);
        let p = pow2_usize(n - 1);
        half + (i % 2) * p
    }
}

/// Reorders a full-system column from the internal convention (qubit 0 as the
/// most significant bit) to the external one (qubit 0 as the least
/// significant bit) by reversing the bits of every index.
pub fn to_little_endian(state: &QuantumState, num_qubits: usize) -> (r: QuantumState)
    requires
        state_wf(state@),
        num_qubits <= MAX_QUBITS,
        state@.amps.len() == pow2(num_qubits as nat),
    ensures
        state_wf(r@),
        r@.scale == state@.scale,
        r@.amps.len() == state@.amps.len(),
        forall|i: int|
            0 <= i < r@.amps.len() ==> #[trigger] r@.amps[i] == state@.amps[spec_bitrev(
                num_qubits as nat,
                i,
            )],
{
    let size = state.col.len();
    let mut col: Vec<Amplitude> = Vec::new();
    let mut i: usize = 0;
    while i < size
        invariant
            state_wf(state@),
            num_qubits <= MAX_QUBITS,
            size == state.col@.len() == pow2(num_qubits as nat),
            i <= size,
            col@.len() == i,
            forall|j: int|
                0 <= j < i ==> (#[trigger] col@[j])@ == state@.amps[spec_bitrev(
                    num_qubits as nat,
                    j,
                )],
        decreases size - i,
    {
        let src = bitrev_usize(num_qubits, i);
        col.push(state.col[src]);
        i = i + 1;
    }
    let r = QuantumState { col, scale: state.scale };
    proof {
        assert(r@.amps.len() == state@.amps.len());
        assert forall|j: int| 0 <= j < r@.amps.len() implies amp_in_range(#[trigger] r@.amps[j]) by {
            lemma_bitrev_range(num_qubits as nat, j);
        }
    }
    r
}

/// The frontend view of the first `k` snapshots: the fragments of each
/// tensored into one full column of length 2^n and reindexed to the external
/// bit order.
pub open spec fn spec_frontend(steps: Seq<Seq<FragView>>, n: nat, k: int) -> Result<
    Seq<StateView>,
    QuantumCircuitError,
>
    decreases k,
{
    if k <= 0 {
        Ok(seq![])
    } else {
        match spec_frontend(steps, n, k - 1) {
            Err(e) => Err(e),
            Ok(acc) => match spec_combine_all(steps[k - 1], steps[k - 1].len() as int) {
                Err(e) => Err(e),
                Ok(st) => if st.0.len() != pow2(n) {
                    Err(QuantumCircuitError::InternalInvariantViolation)
                } else {
                    Ok(
                        acc.push(
                            StateView {
                                amps: Seq::new(st.0.len(), |i: int| st.0[spec_bitrev(n, i)]),
                                scale: st.1,
                            },
                        ),
                    )
                },
            },
        }
    }
}

proof fn lemma_frontend_err_stays(
    steps: Seq<Seq<FragView>>,
    n: nat,
    s: int,
    t: int,
    e: QuantumCircuitError,
)
    requires
        0 <= s <= t,
        spec_frontend(steps, n, s) == Err::<Seq<StateView>, QuantumCircuitError>(e),
    ensures
        spec_frontend(steps, n, t) == Err::<Seq<StateView>, QuantumCircuitError>(e),
    decreases t - s,
{
    if t > s {
        lemma_frontend_err_stays(steps, n, s, t - 1, e);
    }
}

/// Flattens every snapshot into one canonical full-system amplitude column
/// for external consumption, in the external bit-order convention.
pub fn combine_states_for_frontend(simulated_states: &Vec<QuantumStep>, num_qubits: usize) -> (r:
    Result<Vec<QuantumState>, QuantumCircuitError>)
    requires
        1 <= num_qubits <= MAX_QUBITS,
        forall|t: int| 0 <= t < simulated_states@.len() ==> step_wf((#[trigger] simulated_states@[t])@),
    ensures
        r matches Ok(v) ==> spec_frontend(
            Seq::new(simulated_states@.len(), |i: int| simulated_states@[i]@),
            num_qubits as nat,
            simulated_states@.len() as int,
        ) == Ok::<Seq<StateView>, QuantumCircuitError>(Seq::new(v@.len(), |i: int| v@[i]@)),
        r matches Err(e) ==> spec_frontend(
            Seq::new(simulated_states@.len(), |i: int| simulated_states@[i]@),
            num_qubits as nat,
            simulated_states@.len() as int,
        ) == Err::<Seq<StateView>, QuantumCircuitError>(e),
{
    let ghost sv = Seq::new(simulated_states@.len(), |i: int| simulated_states@[i]@);
    let ghost n = num_qubits as nat;
    let count = simulated_states.len();
    let expected = pow2_usize(num_qubits);
    let mut combined_states: Vec<QuantumState> = Vec::new();
    proof {
        assert(Seq::new(combined_states@.len(), |i: int| combined_states@[i]@) =~~= Seq::<
            StateView,
        >::empty());
    }
    let mut t: usize = 0;
    while t < count
        invariant
            sv == Seq::new(simulated_states@.len(), |i: int| simulated_states@[i]@),
            n == num_qubits as nat,
            1 <= num_qubits <= MAX_QUBITS,
            count == simulated_states@.len(),
            expected == pow2(n),
            forall|tt: int| 0 <= tt < count ==> step_wf((#[trigger] simulated_states@[tt])@),
            t <= count,
            combined_states@.len() == t,
            spec_frontend(sv, n, t as int) == Ok::<Seq<StateView>, QuantumCircuitError>(
                Seq::new(combined_states@.len(), |i: int| combined_states@[i]@),
            ),
        decreases count - t,
    {
        let ghost acc = Seq::new(combined_states@.len(), |i: int| combined_states@[i]@);
        let step_ref = &simulated_states[t];
        proof {
            assert(step_ref@ == sv[t as int]);
        }
        let combined = match combine_states(step_ref) {
            Err(e) => {
                proof {
                    lemma_frontend_err_stays(sv, n, t as int + 1, count as int, e);
                }
                return Err(e);
            },
            Ok(c) => c,
        };
        if combined.col.len() != expected {
            proof {
                lemma_frontend_err_stays(
                    sv,
                    n,
                    t as int + 1,
                    count as int,
                    QuantumCircuitError::InternalInvariantViolation,
                );
            }
            return Err(QuantumCircuitError::InternalInvariantViolation);
        }
        let adapted = to_little_endian(&combined, num_qubits);
        combined_states.push(adapted);
        proof {
            assert(combined_states@.last()@.amps =~~= Seq::new(
                pow2(n),
                |i: int| combined.view().amps[spec_bitrev(n, i)],
            ));
            assert(combined_states@.last()@ =~= spec_frontend(sv, n, t as int + 1)->Ok_0.last());
            assert(Seq::new(combined_states@.len(), |i: int| combined_states@[i]@) =~~= acc.push(
                combined_states@.last()@,
            ));
        }
        t = t + 1;
    }
    Ok(combined_states)
}

/// The whole request as one function of the token grid: parse, track
/// entanglement, combine, evolve, and adapt; the first error is the outcome.
pub open spec fn spec_handler(g: Seq<Seq<Seq<char>>>) -> Result<
    Seq<StateView>,
    QuantumCircuitError,
> {
    match spec_build(g) {
        Err(e) => Err(e),
        Ok(circ) => match spec_sim_upto(circ, g.len() as nat, circ.len() as int) {
            Err(e) => Err(e),
            Ok(steps) => spec_frontend(steps, g.len() as nat, steps.len() as int),
        },
    }
}

/// Simulates the circuit described by the token grid and returns one
/// full-system amplitude column per time step, the initial all-zero basis
/// state first, in the external bit-order convention.
pub fn simulate_circuit_handler(incoming_data: UnparsedCircuit) -> (r: Result<
    Vec<QuantumState>,
    QuantumCircuitError,
>)
    requires
        grid_wf(incoming_data@),
    ensures
        r matches Ok(v) ==> spec_handler(incoming_data@) == Ok::<Seq<StateView>,
            QuantumCircuitError,
        >(Seq::new(v@.len(), |i: int| v@[i]@)),
        r matches Err(e) ==> spec_handler(incoming_data@) == Err::<Seq<StateView>,
            QuantumCircuitError,
        >(e),
{
    let num_qubits = incoming_data.circuit.len();
    let ghost gv = incoming_data@;
    proof {
        assert(num_qubits == gv.len());
    }
    let parsed_circuit = match build_circuit_from_data(incoming_data) {
        Err(e) => {
            return Err(e);
        },
        Ok(c) => c,
    };
    let simulated_states = match simulate_circuit(&parsed_circuit, num_qubits) {
        Err(e) => {
            return Err(e);
        },
        Ok(v) => v,
    };
    match combine_states_for_frontend(&simulated_states, num_qubits) {
        Err(e) => Err(e),
        Ok(v) => Ok(v),
    }
}

/// The qubit lists of a snapshot's fragments.
pub open spec fn snapshot_tags(fs: Seq<FragView>) -> Seq<Seq<usize>> {
    Seq::new(fs.len(), |i: int| fs[i].qubits)
}

/// Each fragment holds one amplitude per basis state of its qubits.
pub open spec fn frags_sized(fs: Seq<FragView>) -> bool {
    forall|i: int|
        0 <= i < fs.len() ==> (#[trigger] fs[i]).amps.len() == pow2(fs[i].qubits.len())
}

/// Total width of the fragments among the first `k` that the run intersects.
pub open spec fn included_len(prev: Seq<FragView>, qubits: Seq<usize>, k: int) -> int
    decreases k,
{
    if k <= 0 {
        0
    } else {
        included_len(prev, qubits, k - 1) + if seqs_intersect(prev[k - 1].qubits, qubits) {
            prev[k - 1].qubits.len() as int
        } else {
            0
        }
    }
}

proof fn lemma_tensor_prefix_len(prev: Seq<FragView>, qubits: Seq<usize>, k: int)
    requires
        frags_sized(prev),
        0 <= k <= prev.len(),
        spec_tensor_prefix(prev, qubits, k) is Some,
    ensures
        spec_tensor_prefix(prev, qubits, k)->Some_0.0.len() == pow2(
            included_len(prev, qubits, k) as nat,
        ),
        included_len(prev, qubits, k) >= 0,
    decreases k,
{
    if k <= 0 {
        lemma2_to64();
    } else {
        assert(spec_tensor_prefix(prev, qubits, k - 1) is Some);
        lemma_tensor_prefix_len(prev, qubits, k - 1);
        if seqs_intersect(prev[k - 1].qubits, qubits) {
            lemma_pow2_adds(
                included_len(prev, qubits, k - 1) as nat,
                prev[k - 1].qubits.len(),
            );
        }
    }
}

proof fn lemma_included_shift(prev: Seq<FragView>, qubits: Seq<usize>, m: int)
    requires
        1 <= m <= prev.len(),
    ensures
        included_len(prev, qubits, m) == (if seqs_intersect(prev[0].qubits, qubits) {
            prev[0].qubits.len() as int
        } else {
            0
        }) + included_len(prev.skip(1), qubits, m - 1),
    decreases m,
{
    if m == 1 {
        assert(included_len(prev, qubits, 0) == 0);
        assert(included_len(prev.skip(1), qubits, 0) == 0);
    } else {
        lemma_included_shift(prev, qubits, m - 1);
        assert(prev.skip(1)[m - 2] == prev[m - 1]);
        assert(included_len(prev.skip(1), qubits, m - 1) == included_len(
            prev.skip(1),
            qubits,
            m - 2,
        ) + if seqs_intersect(prev.skip(1)[m - 2].qubits, qubits) {
            prev.skip(1)[m - 2].qubits.len() as int
        } else {
            0
        });
    }
}

/// A contiguous run holds a row exactly when the row lies within its bounds.
proof fn lemma_run_contains(qubits: Seq<usize>, p: usize)
    requires
        qubits.len() >= 1,
        forall|kk: int|
            0 <= kk < qubits.len() ==> (#[trigger] qubits[kk]) as int == qubits[0] + kk,
    ensures
        qubits.contains(p) <==> qubits[0] <= p as int && (p as int) < qubits[0] + qubits.len(),
{
    if qubits[0] <= p as int && (p as int) < qubits[0] + qubits.len() {
        assert(qubits[(p as int) - qubits[0]] == p);
    }
    if qubits.contains(p) {
        let kk = choose|kk: int| 0 <= kk < qubits.len() && qubits[kk] == p;
        assert(qubits[kk] as int == qubits[0] + kk);
    }
}

/// Tiling: when every fragment lies whole inside or whole outside a
/// contiguous run, the intersecting fragments tile the part of the run at or
/// beyond the cover's starting row.
proof fn lemma_included_len_tiles(
    prev: Seq<FragView>,
    qubits: Seq<usize>,
    q0: int,
    n: int,
)
    requires
        groups_cover_from(snapshot_tags(prev), q0, n),
        qubits.len() >= 1,
        forall|kk: int|
            0 <= kk < qubits.len() ==> (#[trigger] qubits[kk]) as int == qubits[0] + kk,
        0 <= qubits[0],
        qubits[0] + qubits.len() <= n,
        forall|i: int|
            0 <= i < prev.len() ==> group_subset(qubits, (#[trigger] prev[i]).qubits)
                || !seqs_intersect(prev[i].qubits, qubits),
    ensures
        included_len(prev, qubits, prev.len() as int) == if q0 <= qubits[0] {
            qubits.len() as int
        } else if q0 < qubits[0] + qubits.len() {
            qubits[0] + qubits.len() - q0
        } else {
            0
        },
    decreases prev.len(),
{
    let a = qubits[0] as int;
    let w = qubits.len() as int;
    let tags = snapshot_tags(prev);
    if prev.len() == 0 {
        assert(q0 == n);
        assert(a + w <= n);
        assert(q0 >= a + w);
    } else {
        let head = prev[0].qubits;
        assert(head == tags[0]);
        assert(head.len() >= 1);
        assert(forall|kk: int|
            0 <= kk < head.len() ==> (#[trigger] head[kk]) as int == q0 + kk);
        assert(head[0] as int == q0);
        assert(snapshot_tags(prev.skip(1)) =~~= tags.skip(1));
        assert forall|i: int|
            0 <= i < prev.skip(1).len() implies group_subset(
            qubits,
            (#[trigger] prev.skip(1)[i]).qubits,
        ) || !seqs_intersect(prev.skip(1)[i].qubits, qubits) by {
            assert(prev.skip(1)[i] == prev[i + 1]);
        }
        lemma_included_len_tiles(prev.skip(1), qubits, q0 + head.len(), n);
        lemma_included_shift(prev, qubits, prev.len() as int);
        if seqs_intersect(head, qubits) {
            // the head fragment lies whole inside the run
            assert(group_subset(qubits, head));
            assert(a <= q0 && q0 + head.len() <= a + w) by {
                assert(qubits.contains(head[0]));
                lemma_run_contains(qubits, head[0]);
                let last: int = head.len() - 1;
                assert(qubits.contains(head[last]));
                lemma_run_contains(qubits, head[last]);
                assert(head[last] as int == q0 + last);
            }
        } else {
            // disjoint intervals: the head ends before or starts after the run
            assert(q0 + head.len() <= a || q0 >= a + w) by {
                if q0 < a + w && q0 + head.len() > a {
                    let p: int = if a >= q0 {
                        a
                    } else {
                        q0
                    };
                    assert(q0 <= p && p < q0 + head.len());
                    assert(a <= p && p < a + w);
                    assert(head[p - q0] as int == p);
                    assert(qubits[p - a] as int == p);
                    assert(qubits[p - a] == head[p - q0]);
                    assert(qubits.contains(head[p - q0]));
                    assert(seqs_intersect(head, qubits)) by {
                        assert(0 <= p - q0 < head.len());
                    }
                }
            }
        }
    }
}

/// A placement whose run the snapshot's fragments tile cleanly never fails
/// the dimension check: its outcome is the new fragment or overflow.
proof fn lemma_calc_not_defensive(prev: Seq<FragView>, p: PlacementView, n: int)
    requires
        groups_cover_from(snapshot_tags(prev), 0, n),
        frags_sized(prev),
        placement_wf(p),
        p.qubits.len() >= 1,
        0 <= p.qubits[0],
        p.qubits[0] + p.qubits.len() <= n,
        forall|i: int|
            0 <= i < prev.len() ==> group_subset(p.qubits, (#[trigger] prev[i]).qubits)
                || !seqs_intersect(prev[i].qubits, p.qubits),
    ensures
        spec_calc(prev, p) is Ok || spec_calc(prev, p) == Err::<FragView, QuantumCircuitError>(
            QuantumCircuitError::AmplitudeOverflow,
        ),
{
    match spec_tensor_prefix(prev, p.qubits, prev.len() as int) {
        None => {},
        Some(acc) => {
            lemma_tensor_prefix_len(prev, p.qubits, prev.len() as int);
            lemma_included_len_tiles(prev, p.qubits, 0, n);
            assert(included_len(prev, p.qubits, prev.len() as int) == p.qubits.len() as int);
            assert(acc.0.len() == pow2(p.qubits.len()));
            assert(p.gate.mat.len() == pow2(p.gate.size));
        },
    }
}

proof fn lemma_step_not_defensive(
    prev: Seq<FragView>,
    gates: Seq<PlacementView>,
    k: int,
    n: int,
)
    requires
        groups_cover_from(snapshot_tags(prev), 0, n),
        frags_sized(prev),
        0 <= k <= gates.len(),
        forall|i: int| 0 <= i < gates.len() ==> placement_wf(#[trigger] gates[i]),
        forall|i: int|
            0 <= i < gates.len() ==> (#[trigger] gates[i]).qubits.len() >= 1 && 0
                <= gates[i].qubits[0] && gates[i].qubits[0] + gates[i].qubits.len() <= n,
        forall|i: int, j: int|
            0 <= i < gates.len() && 0 <= j < prev.len() ==> group_subset(
                (#[trigger] gates[i]).qubits,
                (#[trigger] prev[j]).qubits,
            ) || !seqs_intersect(prev[j].qubits, gates[i].qubits),
    ensures
        spec_step_states(prev, gates, k) is Ok || spec_step_states(prev, gates, k) == Err::<
            Seq<FragView>,
            QuantumCircuitError,
        >(QuantumCircuitError::AmplitudeOverflow),
        spec_step_states(prev, gates, k) matches Ok(fs) ==> {
            &&& fs.len() == k
            &&& forall|i: int| 0 <= i < k ==> (#[trigger] fs[i]).qubits == gates[i].qubits
            &&& frags_sized(fs)
        },
    decreases k,
{
    if k > 0 {
        lemma_step_not_defensive(prev, gates, k - 1, n);
        if spec_step_states(prev, gates, k - 1) is Ok {
            lemma_calc_not_defensive(prev, gates[k - 1], n);
            match spec_calc(prev, gates[k - 1]) {
                Ok(f) => {
                    assert(f.qubits == gates[k - 1].qubits);
                    assert(f.amps.len() == pow2(f.qubits.len())) by {
                        let acc = spec_tensor_prefix(
                            prev,
                            gates[k - 1].qubits,
                            prev.len() as int,
                        )->Some_0;
                        assert(f.amps.len() == gates[k - 1].gate.mat.len());
                        assert(gates[k - 1].gate.mat.len() == pow2(gates[k - 1].gate.size));
                    }
                },
                Err(_) => {},
            }
        }
    }
}

/// The initial singleton fragments cover the qubit rows.
proof fn lemma_initial_facts(n: nat)
    requires
        1 <= n <= usize::MAX,
    ensures
        groups_cover_from(snapshot_tags(spec_initial(n)), 0, n as int),
        frags_sized(spec_initial(n)),
        snapshot_tags(spec_initial(n)).len() == n,
        forall|i: int|
            0 <= i < n ==> #[trigger] snapshot_tags(spec_initial(n))[i] == seq![i as usize],
{
    lemma2_to64();
    assert forall|i: int| 0 <= i < n implies #[trigger] snapshot_tags(spec_initial(n))[i]
        == seq![i as usize] by {}
    assert forall|i: int|
        0 <= i < spec_initial(n).len() implies (#[trigger] spec_initial(n)[i]).amps.len() == pow2(
        spec_initial(n)[i].qubits.len(),
    ) by {}
    lemma_singleton_tags_cover(spec_initial(n), 0, n as int);
}

proof fn lemma_singleton_tags_cover(fs: Seq<FragView>, q0: int, n: int)
    requires
        0 <= q0 <= n,
        n <= usize::MAX,
        fs.len() == n - q0,
        forall|i: int| 0 <= i < fs.len() ==> (#[trigger] fs[i]).qubits == seq![(i + q0) as usize],
    ensures
        groups_cover_from(snapshot_tags(fs), q0, n),
    decreases fs.len(),
{
    if fs.len() > 0 {
        assert(snapshot_tags(fs)[0] == seq![q0 as usize]);
        assert forall|i: int| 0 <= i < fs.skip(1).len() implies (#[trigger] fs.skip(1)[i]).qubits
            == seq![(i + q0 + 1) as usize] by {
            assert(fs.skip(1)[i] == fs[i + 1]);
        }
        lemma_singleton_tags_cover(fs.skip(1), q0 + 1, n);
        assert(snapshot_tags(fs).skip(1) =~~= snapshot_tags(fs.skip(1)));
        assert(snapshot_tags(fs)[0].len() == 1);
        assert(snapshot_tags(fs)[0][0] as int == q0);
    }
}

/// A fragment wholly inside one group of a covering partition is wholly
/// inside or wholly outside each placement run drawn from that partition.
proof fn lemma_tag_aligned(
    tag: Seq<usize>,
    qubits: Seq<usize>,
    gstep: Seq<Seq<usize>>,
    i: int,
    n: int,
)
    requires
        groups_cover_from(gstep, 0, n),
        subset_of_some_group(gstep, tag),
        0 <= i < gstep.len(),
        qubits == gstep[i],
    ensures
        group_subset(qubits, tag) || !seqs_intersect(tag, qubits),
{
    let jj = choose|jj: int| 0 <= jj < gstep.len() && #[trigger] crate::circuit_parser::group_subset(gstep[jj], tag);
    if jj == i {
        assert(group_subset(qubits, tag));
    } else {
        if seqs_intersect(tag, qubits) {
            let i0 = choose|i0: int| 0 <= i0 < tag.len() && qubits.contains(#[trigger] tag[i0]);
            crate::circuit_parser::lemma_cover_partition(gstep, 0, n);
            assert(gstep[i].contains(tag[i0]));
            assert(gstep[jj].contains(tag[i0]));
            assert(!gstep[jj].contains(tag[i0]));
        }
    }
}

/// On a reduced circuit whose step runs are the per-step partitions, the
/// evolution engine's defensive checks never fire: the simulation either
/// completes or reports overflow.
proof fn lemma_sim_not_defensive(
    circ: Seq<Seq<PlacementView>>,
    groups: Seq<Seq<Seq<usize>>>,
    n: int,
    t: int,
)
    requires
        circ.len() >= 1,
        1 <= n <= MAX_QUBITS,
        0 <= t <= circ.len(),
        groups.len() == circ.len(),
        forall|tt: int| 0 <= tt < circ.len() ==> placements_cover_from(#[trigger] circ[tt], 0, n),
        forall|tt: int|
            0 <= tt < circ.len() ==> (#[trigger] circ[tt]).len() == groups[tt].len(),
        forall|tt: int, i: int|
            0 <= tt < circ.len() && 0 <= i < circ[tt].len() ==> (#[trigger] circ[tt][i]).qubits
                == groups[tt][i],
        forall|tt: int| 0 <= tt < groups.len() ==> groups_cover_from(#[trigger] groups[tt], 0, n),
        forall|tt: int, i: int|
            1 <= tt < groups.len() && 0 <= i < groups[tt - 1].len() ==> subset_of_some_group(
                groups[tt],
                #[trigger] groups[tt - 1][i],
            ),
    ensures
        spec_sim_upto(circ, n as nat, t) is Ok || spec_sim_upto(circ, n as nat, t) == Err::<
            Seq<Seq<FragView>>,
            QuantumCircuitError,
        >(QuantumCircuitError::AmplitudeOverflow),
        spec_sim_upto(circ, n as nat, t) matches Ok(snaps) ==> {
            &&& snaps.len() == t + 1
            &&& forall|tt: int| 0 <= tt <= t ==> frags_sized(#[trigger] snaps[tt])
            &&& forall|tt: int|
                0 <= tt <= t ==> groups_cover_from(snapshot_tags(#[trigger] snaps[tt]), 0, n)
            &&& forall|tt: int|
                1 <= tt <= t ==> snapshot_tags(#[trigger] snaps[tt]) == groups[tt - 1]
            &&& snaps[0] == spec_initial(n as nat)
        },
    decreases t,
{
    lemma2_to64();
    if t == 0 {
        lemma_initial_facts(n as nat);
    } else {
        lemma_sim_not_defensive(circ, groups, n, t - 1);
        match spec_sim_upto(circ, n as nat, t - 1) {
            Err(_) => {},
            Ok(snaps) => {
                let prev = snaps[t - 1];
                assert(snaps.last() == prev);
                let gates = circ[t - 1];
                crate::circuit_parser::lemma_cover_all_placements_wf(gates, 0, n);
                crate::circuit_parser::lemma_cover_elements_placements(gates, 0, n);
                assert forall|i: int|
                    0 <= i < gates.len() implies (#[trigger] gates[i]).qubits.len() >= 1 && 0
                    <= gates[i].qubits[0] && gates[i].qubits[0] + gates[i].qubits.len() <= n by {
                    assert(placement_wf(gates[i]));
                    let last: int = gates[i].qubits.len() - 1;
                    assert(gates[i].qubits[last] as int == gates[i].qubits[0] + last);
                    assert((gates[i].qubits[last] as int) < n);
                }
                // every previous fragment sits inside one group of this step's partition
                assert forall|j: int|
                    0 <= j < prev.len() implies subset_of_some_group(
                    groups[t - 1],
                    (#[trigger] prev[j]).qubits,
                ) by {
                    if t - 1 == 0 {
                        assert(prev == spec_initial(n as nat));
                        assert(prev[j].qubits == seq![j as usize]);
                        crate::circuit_parser::lemma_cover_partition(groups[0], 0, n);
                        assert(0 <= (j as usize) as int && ((j as usize) as int) < n);
                        assert(in_some_group(groups[0], j as usize));
                        let jj = choose|jj: int|
                            0 <= jj < groups[0].len() && (#[trigger] groups[0][jj]).contains(
                                j as usize,
                            );
                        assert(group_subset(groups[0][jj], seq![j as usize])) by {
                            assert forall|kk: int|
                                0 <= kk < seq![j as usize].len() implies groups[0][jj].contains(
                                #[trigger] seq![j as usize][kk],
                            ) by {
                                assert(seq![j as usize][kk] == j as usize);
                            }
                        }
                    } else {
                        assert(snapshot_tags(prev) == groups[t - 2]);
                        assert(prev[j].qubits == snapshot_tags(prev)[j]);
                        assert(subset_of_some_group(groups[t - 1], groups[t - 2][j]));
                    }
                }
                // hence whole-in or whole-out of every placement run
                assert forall|i: int, j: int|
                    0 <= i < gates.len() && 0 <= j < prev.len() implies group_subset(
                    (#[trigger] gates[i]).qubits,
                    (#[trigger] prev[j]).qubits,
                ) || !seqs_intersect(prev[j].qubits, gates[i].qubits) by {
                    assert(gates[i].qubits == groups[t - 1][i]);
                    lemma_tag_aligned(
                        prev[j].qubits,
                        gates[i].qubits,
                        groups[t - 1],
                        i,
                        n,
                    );
                }
                lemma_step_not_defensive(prev, gates, gates.len() as int, n);
                match spec_step_states(prev, gates, gates.len() as int) {
                    Err(_) => {},
                    Ok(fs) => {
                        assert(snapshot_tags(fs) =~~= groups[t - 1]);
                        assert(groups_cover_from(snapshot_tags(fs), 0, n));
                        let snaps2 = spec_sim_upto(circ, n as nat, t)->Ok_0;
                        assert(snaps2 == snaps.push(fs));
                        assert forall|tt: int| 0 <= tt <= t implies frags_sized(
                            #[trigger] snaps2[tt],
                        ) by {
                            if tt < t {
                                assert(snaps2[tt] == snaps[tt]);
                            }
                        }
                        assert forall|tt: int| 0 <= tt <= t implies groups_cover_from(
                            snapshot_tags(#[trigger] snaps2[tt]),
                            0,
                            n,
                        ) by {
                            if tt < t {
                                assert(snaps2[tt] == snaps[tt]);
                            }
                        }
                        assert forall|tt: int| 1 <= tt <= t implies snapshot_tags(
                            #[trigger] snaps2[tt],
                        ) == groups[tt - 1] by {
                            if tt < t {
                                assert(snaps2[tt] == snaps[tt]);
                            }
                        }
                    },
                }
            },
        }
    }
}

proof fn lemma_combine_all_not_defensive(fs: Seq<FragView>, k: int, n: int)
    requires
        groups_cover_from(snapshot_tags(fs), 0, n),
        frags_sized(fs),
        1 <= n,
        1 <= k <= fs.len(),
    ensures
        spec_combine_all(fs, k) is Ok || spec_combine_all(fs, k) == Err::<(Seq<Zw>, nat),
            QuantumCircuitError,
        >(QuantumCircuitError::AmplitudeOverflow),
        spec_combine_all(fs, k) matches Ok(st) ==> st.0.len() == pow2(
            crate::circuit_parser::groups_end(snapshot_tags(fs), k) as nat,
        ),
        crate::circuit_parser::groups_end(snapshot_tags(fs), k) >= 0,
    decreases k,
{
    let tags = snapshot_tags(fs);
    if k == 1 {
        assert(crate::circuit_parser::groups_end(tags, 0) == 0);
        assert(crate::circuit_parser::groups_end(tags, 1) == tags[0].len());
        assert(fs[0].amps.len() == pow2(fs[0].qubits.len()));
    } else {
        lemma_combine_all_not_defensive(fs, k - 1, n);
        match spec_combine_all(fs, k - 1) {
            Err(_) => {},
            Ok(acc) => {
                if acc.0.len() * fs[k - 1].amps.len() <= usize::MAX && acc.1 + fs[k - 1].scale
                    <= u64::MAX && kron_vec_fits(acc.0, fs[k - 1].amps) {
                    lemma_pow2_adds(
                        crate::circuit_parser::groups_end(tags, k - 1) as nat,
                        fs[k - 1].qubits.len(),
                    );
                    assert(fs[k - 1].amps.len() == pow2(fs[k - 1].qubits.len()));
                }
            },
        }
    }
}

proof fn lemma_frontend_not_defensive(steps: Seq<Seq<FragView>>, n: int, k: int)
    requires
        1 <= n <= MAX_QUBITS,
        0 <= k <= steps.len(),
        forall|tt: int| 0 <= tt < steps.len() ==> frags_sized(#[trigger] steps[tt]),
        forall|tt: int|
            0 <= tt < steps.len() ==> groups_cover_from(snapshot_tags(#[trigger] steps[tt]), 0, n),
    ensures
        spec_frontend(steps, n as nat, k) is Ok || spec_frontend(steps, n as nat, k) == Err::<
            Seq<StateView>,
            QuantumCircuitError,
        >(QuantumCircuitError::AmplitudeOverflow),
    decreases k,
{
    if k > 0 {
        lemma_frontend_not_defensive(steps, n, k - 1);
        if spec_frontend(steps, n as nat, k - 1) is Ok {
            let fs = steps[k - 1];
            let tags = snapshot_tags(fs);
            assert(fs.len() >= 1) by {
                if fs.len() == 0 {
                    assert(tags.len() == 0);
                    assert(n == 0);
                }
            }
            lemma_combine_all_not_defensive(fs, fs.len() as int, n);
            match spec_combine_all(fs, fs.len() as int) {
                Err(_) => {},
                Ok(st) => {
                    assert(st.0.len() == pow2(
                        crate::circuit_parser::groups_end(tags, fs.len() as int) as nat,
                    ));
                    assert(crate::circuit_parser::groups_end(tags, fs.len() as int) == n) by {
                        crate::circuit_parser::lemma_groups_end(tags, 0, n, tags.len() as int - 1);
                    }
                },
            }
        }
    }
}

/// Law: on a well-formed grid the whole request fails only by rejecting the
/// tokens or by exceeding the exact representation: the defensive bookkeeping
/// outcome is unreachable through the public entry point.
pub proof fn lemma_handler_fails_only_with_parse_errors_or_overflow(g: Seq<Seq<Seq<char>>>)
    requires
        grid_wf(g),
    ensures
        spec_handler(g) matches Err(e) ==> {
            ||| e == QuantumCircuitError::InvalidGateToken
            ||| e == QuantumCircuitError::MalformedMultiQubitGate
            ||| e == QuantumCircuitError::AmplitudeOverflow
        },
{
    crate::circuit_parser::lemma_build_fails_only_in_parsing(g);
    if spec_build(g) is Ok {
        lemma_handler_sim_facts(g);
        let n = g.len() as int;
        let circ = spec_build(g)->Ok_0;
        match spec_sim_upto(circ, n as nat, circ.len() as int) {
            Err(_) => {},
            Ok(snaps) => {
                lemma_frontend_not_defensive(snaps, n, snaps.len() as int);
            },
        }
    }
}

/// Some fragment of the snapshot is exactly the 1-qubit fragment of row `q`.
pub open spec fn has_singleton_fragment(fs: Seq<FragView>, q: usize) -> bool {
    exists|j: int|
        0 <= j < fs.len() && (#[trigger] fs[j]).qubits == seq![q] && fs[j].amps.len() == 2
}

/// Law: a qubit row that only 1-qubit placements ever act on keeps a
/// fragment of its own, holding exactly its two amplitudes, in every
/// snapshot of the simulation.
pub proof fn lemma_untouched_qubit_keeps_own_fragment(g: Seq<Seq<Seq<char>>>, q: usize, t: int)
    requires
        grid_wf(g),
        spec_build(g) is Ok,
        0 <= q as int && (q as int) < g.len(),
        forall|tt: int, i: int|
            0 <= tt < crate::circuit_parser::spec_preparse(g)->Ok_0.len() && 0 <= i
                < crate::circuit_parser::spec_preparse(g)->Ok_0[tt].len() && (
            #[trigger] crate::circuit_parser::spec_preparse(g)->Ok_0[tt][i].qubits).contains(q)
                ==> crate::circuit_parser::spec_preparse(g)->Ok_0[tt][i].qubits.len() == 1,
        spec_sim_upto(spec_build(g)->Ok_0, g.len() as nat, spec_build(g)->Ok_0.len() as int) is Ok,
        0 <= t <= spec_build(g)->Ok_0.len(),
    ensures
        has_singleton_fragment(
            spec_sim_upto(
                spec_build(g)->Ok_0,
                g.len() as nat,
                spec_build(g)->Ok_0.len() as int,
            )->Ok_0[t],
            q,
        ),
{
    lemma2_to64();
    let n = g.len() as int;
    let cols = g[0].len() as int;
    crate::circuit_parser::lemma_preparse_facts(g, cols);
    let pre = crate::circuit_parser::spec_preparse(g)->Ok_0;
    crate::circuit_parser::lemma_entangle_never_fails(pre, n, pre.len() as int);
    crate::circuit_parser::lemma_entangle_upto_cover(pre, n, pre.len() as int);
    let groups = crate::circuit_parser::spec_entangle_upto(pre, pre.len() as int)->Ok_0;
    let circ = spec_build(g)->Ok_0;
    assert(crate::circuit_parser::spec_combine_upto(pre, groups, pre.len() as int) is Ok);
    crate::circuit_parser::lemma_combine_upto_index(pre, groups, pre.len() as int, 0);
    assert(circ.len() == pre.len());
    lemma_handler_sim_facts(g);
    let snaps = spec_sim_upto(circ, n as nat, circ.len() as int)->Ok_0;
    if t == 0 {
        assert(snaps[0] == spec_initial(n as nat));
        assert(snaps[0][q as int].qubits == seq![q]);
        assert(snaps[0][q as int].amps.len() == 2);
    } else {
        crate::circuit_parser::lemma_untouched_qubit_stays_singleton(pre, n, groups, q, t - 1);
        assert(groups[t - 1].contains(seq![q]));
        let j = choose|j: int| 0 <= j < groups[t - 1].len() && (#[trigger] groups[t - 1][j]) == seq![q];
        assert(snapshot_tags(snaps[t]) == groups[t - 1]);
        assert(snaps[t][j].qubits == seq![q]);
        assert(frags_sized(snaps[t]));
        assert(snaps[t][j].amps.len() == pow2(1));
    }
}

/// The snapshot facts the laws above share: on a built circuit the
/// simulation either completes or overflows, and when it completes every
/// snapshot is sized and tagged by the per-step partitions.
proof fn lemma_handler_sim_facts(g: Seq<Seq<Seq<char>>>)
    requires
        grid_wf(g),
        spec_build(g) is Ok,
    ensures
        ({
            let n = g.len() as int;
            let pre = crate::circuit_parser::spec_preparse(g)->Ok_0;
            let groups = crate::circuit_parser::spec_entangle_upto(pre, pre.len() as int)->Ok_0;
            let circ = spec_build(g)->Ok_0;
            let snaps = spec_sim_upto(circ, n as nat, circ.len() as int)->Ok_0;
            &&& crate::circuit_parser::spec_preparse(g) is Ok
            &&& crate::circuit_parser::spec_entangle_upto(pre, pre.len() as int) is Ok
            &&& circ.len() == pre.len()
            &&& groups.len() == pre.len()
            &&& (spec_sim_upto(circ, n as nat, circ.len() as int) is Ok || spec_sim_upto(
                circ,
                n as nat,
                circ.len() as int,
            ) == Err::<Seq<Seq<FragView>>, QuantumCircuitError>(
                QuantumCircuitError::AmplitudeOverflow,
            ))
            &&& spec_sim_upto(circ, n as nat, circ.len() as int) is Ok ==> {
                &&& snaps.len() == circ.len() + 1
                &&& snaps[0] == spec_initial(n as nat)
                &&& forall|tt: int| 0 <= tt <= circ.len() ==> frags_sized(#[trigger] snaps[tt])
                &&& forall|tt: int|
                    0 <= tt <= circ.len() ==> groups_cover_from(
                        snapshot_tags(#[trigger] snaps[tt]),
                        0,
                        n,
                    )
                &&& forall|tt: int|
                    1 <= tt <= circ.len() ==> snapshot_tags(#[trigger] snaps[tt]) == groups[tt - 1]
            }
        }),
{
    let n = g.len() as int;
    let cols = g[0].len() as int;
    crate::circuit_parser::lemma_preparse_facts(g, cols);
    let pre = crate::circuit_parser::spec_preparse(g)->Ok_0;
    assert(pre.len() == cols >= 1);
    crate::circuit_parser::lemma_entangle_never_fails(pre, n, pre.len() as int);
    crate::circuit_parser::lemma_entangle_upto_cover(pre, n, pre.len() as int);
    let groups = crate::circuit_parser::spec_entangle_upto(pre, pre.len() as int)->Ok_0;
    assert(groups.len() == pre.len());
    let circ = spec_build(g)->Ok_0;
    assert(crate::circuit_parser::spec_combine_upto(pre, groups, pre.len() as int) is Ok);
    assert(circ == crate::circuit_parser::spec_combine_upto(pre, groups, pre.len() as int)->Ok_0);
    crate::circuit_parser::lemma_combine_upto_index(pre, groups, pre.len() as int, 0);
    assert(circ.len() == pre.len());
    assert forall|tt: int, i: int|
        0 <= tt < pre.len() && 0 <= i < pre[tt].len() implies
        crate::circuit_parser::placement_in_one_group(
        #[trigger] groups[tt],
        #[trigger] pre[tt][i],
    ) by {
        lemma_respects_partition(g, tt, i);
    }
    assert forall|tt: int| 0 <= tt < circ.len() implies placements_cover_from(
        #[trigger] circ[tt],
        0,
        n,
    ) && circ[tt].len() == groups[tt].len() && forall|i: int|
        0 <= i < circ[tt].len() ==> (#[trigger] circ[tt][i]).qubits == groups[tt][i] by {
        crate::circuit_parser::lemma_combine_upto_index(pre, groups, pre.len() as int, tt);
        if tt == 0 {
            assert(circ[0] == pre[0]);
            assert(groups[0] == crate::circuit_parser::step0_groups(pre)) by {
                crate::circuit_parser::lemma_upto_prefix(pre, 1, pre.len() as int);
                assert(crate::circuit_parser::spec_entangle_upto(pre, 1)->Ok_0 == groups.subrange(
                    0,
                    1,
                ));
                assert(groups.subrange(0, 1)[0] == groups[0]);
            }
            assert forall|i: int| 0 <= i < circ[0].len() implies (#[trigger] circ[0][i]).qubits
                == groups[0][i] by {}
        } else {
            assert(pre[tt].len() >= 1) by {
                if pre[tt].len() == 0 {
                    assert(n == 0);
                }
            }
            crate::circuit_parser::lemma_combined_step_tags(pre[tt], groups[tt], n);
            crate::circuit_parser::lemma_combine_step_never_fails(
                pre[tt],
                groups[tt],
                pre[tt].len() as int,
                n,
            );
            crate::circuit_parser::lemma_placements_end(pre[tt], 0, n, pre[tt].len() as int);
        }
    }
    assert forall|tt: int, i: int|
        1 <= tt < groups.len() && 0 <= i < groups[tt - 1].len() implies subset_of_some_group(
            groups[tt],
            #[trigger] groups[tt - 1][i],
        ) by {
        crate::circuit_parser::lemma_upto_prefix(pre, tt + 1, pre.len() as int);
        crate::circuit_parser::lemma_upto_prefix(pre, tt, pre.len() as int);
        let accp = crate::circuit_parser::spec_entangle_upto(pre, tt)->Ok_0;
        assert(accp == groups.subrange(0, tt));
        assert(accp.last() == groups[tt - 1]);
        assert(crate::circuit_parser::spec_entangle_upto(pre, tt + 1)->Ok_0 == groups.subrange(
            0,
            tt + 1,
        ));
        assert(groups.subrange(0, tt + 1)[tt] == groups[tt]);
        assert(crate::circuit_parser::spec_entangle_step(
            groups[tt - 1],
            pre[tt],
            pre[tt].len() as int,
        ) is Ok);
        crate::circuit_parser::lemma_groups_never_split(
            groups[tt - 1],
            pre[tt],
            pre[tt].len() as int,
            i,
        );
    }
    lemma_sim_not_defensive(circ, groups, n, circ.len() as int);
}

/// Each placement of the parsed circuit lies within one group of its own
/// step's partition.
proof fn lemma_respects_partition(g: Seq<Seq<Seq<char>>>, tt: int, i: int)
    requires
        grid_wf(g),
        spec_build(g) is Ok,
        0 <= tt < crate::circuit_parser::spec_preparse(g)->Ok_0.len(),
        0 <= i < crate::circuit_parser::spec_preparse(g)->Ok_0[tt].len(),
    ensures
        ({
            let pre = crate::circuit_parser::spec_preparse(g)->Ok_0;
            let groups = crate::circuit_parser::spec_entangle_upto(pre, pre.len() as int)->Ok_0;
            crate::circuit_parser::placement_in_one_group(groups[tt], pre[tt][i])
        }),
{
    let n = g.len() as int;
    let cols = g[0].len() as int;
    crate::circuit_parser::lemma_preparse_facts(g, cols);
    let pre = crate::circuit_parser::spec_preparse(g)->Ok_0;
    crate::circuit_parser::lemma_entangle_never_fails(pre, n, pre.len() as int);
    crate::circuit_parser::lemma_entangle_upto_cover(pre, n, pre.len() as int);
    let groups = crate::circuit_parser::spec_entangle_upto(pre, pre.len() as int)->Ok_0;
    crate::circuit_parser::lemma_cover_all_placements_wf(pre[tt], 0, n);
    crate::circuit_parser::lemma_cover_elements_placements(pre[tt], 0, n);
    let p = pre[tt][i];
    assert(placement_wf(p));
    assert(p.qubits.len() >= 1 && p.qubits.len() <= 2);
    if p.qubits.len() == 1 {
        crate::circuit_parser::lemma_cover_partition(groups[tt], 0, n);
        let q = p.qubits[0];
        assert(0 <= q as int && (q as int) < n);
        assert(in_some_group(groups[tt], q));
        let j = choose|j: int| 0 <= j < groups[tt].len() && (#[trigger] groups[tt][j]).contains(q);
        assert forall|kk: int|
            0 <= kk < p.qubits.len() implies (#[trigger] groups[tt][j]).contains(
            #[trigger] p.qubits[kk],
        ) by {
            assert(p.qubits[kk] == q);
        }
    } else {
        let prevg: Seq<Seq<usize>> = if tt == 0 {
            crate::circuit_parser::step0_groups(pre)
        } else {
            groups[tt - 1]
        };
        if tt == 0 {
            assert(groups[0] == crate::circuit_parser::step0_groups(pre)) by {
                crate::circuit_parser::lemma_upto_prefix(pre, 1, pre.len() as int);
                assert(crate::circuit_parser::spec_entangle_upto(pre, 1)->Ok_0 == groups.subrange(
                    0,
                    1,
                ));
                assert(groups.subrange(0, 1)[0] == groups[0]);
            }
            assert(groups[0][i] == p.qubits);
            assert forall|kk: int|
                0 <= kk < p.qubits.len() implies (#[trigger] groups[0][i]).contains(
                #[trigger] p.qubits[kk],
            ) by {
                assert(groups[0][i][kk] == p.qubits[kk]);
            }
        } else {
            assert(crate::circuit_parser::spec_entangle_step(
                prevg,
                pre[tt],
                pre[tt].len() as int,
            ) is Ok && groups[tt] == crate::circuit_parser::spec_entangle_step(
                prevg,
                pre[tt],
                pre[tt].len() as int,
            )->Ok_0) by {
                crate::circuit_parser::lemma_upto_prefix(pre, tt + 1, pre.len() as int);
                crate::circuit_parser::lemma_upto_prefix(pre, tt, pre.len() as int);
                let accp = crate::circuit_parser::spec_entangle_upto(pre, tt)->Ok_0;
                assert(accp == groups.subrange(0, tt));
                assert(accp.last() == groups[tt - 1]);
                assert(crate::circuit_parser::spec_entangle_upto(pre, tt + 1)->Ok_0
                    == groups.subrange(0, tt + 1));
                assert(groups.subrange(0, tt + 1)[tt] == groups[tt]);
            }
            crate::circuit_parser::lemma_two_qubit_operands_share_a_group(
                prevg,
                pre[tt],
                pre[tt].len() as int,
                i,
            );
            let j = choose|j: int|
                0 <= j < groups[tt].len() && (#[trigger] groups[tt][j]).contains(
                    pre[tt][i].qubits[0],
                ) && groups[tt][j].contains(pre[tt][i].qubits[1]);
            assert forall|kk: int|
                0 <= kk < p.qubits.len() implies (#[trigger] groups[tt][j]).contains(
                #[trigger] p.qubits[kk],
            ) by {
                assert(kk == 0 || kk == 1);
            }
        }
    }
}

} // verus!
