use vstd::prelude::*;

use crate::amplitude::{
    lemma_zw_times_bounded, zw_bounded, zw_one, zw_sqrt2, zw_sqrt2_pow, zw_times, zw_zero,
    Amplitude, Zw, TIMES_ARG_BOUND,
};
use vstd::arithmetic::power::{lemma_pow_adds, lemma_pow_increases, pow};
use vstd::arithmetic::power2::{lemma2_to64, lemma_pow2_adds, lemma_pow2_pos, pow2};

verus! {

/// Widest operator the engine builds: one per entangled group, so at most one
/// per qubit row, and the grid is capped at this many rows.
pub const MAX_QUBITS: usize = 30;

/// Mathematical model of a gate: the operator is `mat / sqrt(2)^scale`, acting
/// on `size` qubits, so `mat` is square with side 2^size.
#[verifier::ext_equal]
pub ghost struct GateView {
    pub mat: Seq<Seq<Zw>>,
    pub scale: nat,
    pub size: nat,
}

/// A named unitary of the catalog, or a tensor/controlled combination of them.
/// Entries are exact ring elements; the shared denominator sqrt(2)^scale is
/// kept once per matrix.
#[derive(Debug)]
pub struct QuantumGate {
    pub matrix: Vec<Vec<Amplitude>>,
    pub scale: u64,
    pub size: usize,
}

impl View for QuantumGate {
    type V = GateView;

    open spec fn view(&self) -> GateView {
        GateView {
            mat: Seq::new(
                self.matrix@.len(),
                |i: int| Seq::new(self.matrix@[i]@.len(), |j: int| self.matrix@[i]@[j]@),
            ),
            scale: self.scale as nat,
            size: self.size as nat,
        }
    }
}

/// Coordinate bound every entry of a well-formed gate of this width obeys.
pub open spec fn entry_bound(size: nat) -> int {
    pow(4, (size - 1) as nat)
}

/// Well-formedness of a gate: square 2^size matrix, denominator exponent at
/// most one per qubit, and entry coordinates bounded by 4^(size-1).
pub open spec fn gate_wf(g: GateView) -> bool {
    &&& 1 <= g.size <= MAX_QUBITS
    &&& g.scale <= g.size
    &&& g.mat.len() == pow2(g.size)
    &&& forall|i: int| 0 <= i < g.mat.len() ==> (#[trigger] g.mat[i]).len() == g.mat.len()
    &&& forall|i: int, j: int|
        0 <= i < g.mat.len() && 0 <= j < g.mat.len() ==> zw_bounded(
            #[trigger] g.mat[i][j],
            entry_bound(g.size),
        )
}

/// Kronecker product of two square matrices: the first factor's qubits come
/// first, so its indices form the high bits of the combined index.
pub open spec fn kron_mat(x: Seq<Seq<Zw>>, y: Seq<Seq<Zw>>) -> Seq<Seq<Zw>> {
    Seq::new(
        x.len() * y.len(),
        |i: int|
            Seq::new(
                x.len() * y.len(),
                |j: int|
                    zw_times(
                        x[i / y.len() as int][j / y.len() as int],
                        y[i % y.len() as int][j % y.len() as int],
                    ),
            ),
    )
}

/// Controlled form of a matrix: block diagonal of a (scaled) identity and the
/// target, the control qubit ordered before the target qubits.
pub open spec fn cdown_mat(m: Seq<Seq<Zw>>, scale: nat) -> Seq<Seq<Zw>> {
    Seq::new(
        2 * m.len(),
        |i: int|
            Seq::new(
                2 * m.len(),
                |j: int|
                    if i < m.len() && j < m.len() {
                        if i == j {
                            zw_sqrt2_pow(scale)
                        } else {
                            zw_zero()
                        }
                    } else if i >= m.len() && j >= m.len() {
                        m[i - m.len()][j - m.len()]
                    } else {
                        zw_zero()
                    },
            ),
    )
}

pub open spec fn mat_identity() -> Seq<Seq<Zw>> {
    seq![seq![zw_one(), zw_zero()], seq![zw_zero(), zw_one()]]
}

pub open spec fn mat_hadamard() -> Seq<Seq<Zw>> {
    seq![
        seq![zw_one(), zw_one()],
        seq![zw_one(), Zw { a: -1, b: 0, c: 0, d: 0 }],
    ]
}

pub open spec fn mat_pauli_x() -> Seq<Seq<Zw>> {
    seq![seq![zw_zero(), zw_one()], seq![zw_one(), zw_zero()]]
}

pub open spec fn mat_pauli_y() -> Seq<Seq<Zw>> {
    seq![
        seq![zw_zero(), Zw { a: 0, b: 0, c: -1, d: 0 }],
        seq![Zw { a: 0, b: 0, c: 1, d: 0 }, zw_zero()],
    ]
}

pub open spec fn mat_pauli_z() -> Seq<Seq<Zw>> {
    seq![
        seq![zw_one(), zw_zero()],
        seq![zw_zero(), Zw { a: -1, b: 0, c: 0, d: 0 }],
    ]
}

pub open spec fn mat_phase_s() -> Seq<Seq<Zw>> {
    seq![
        seq![zw_one(), zw_zero()],
        seq![zw_zero(), Zw { a: 0, b: 0, c: 1, d: 0 }],
    ]
}

pub open spec fn mat_phase_t() -> Seq<Seq<Zw>> {
    seq![
        seq![zw_one(), zw_zero()],
        seq![zw_zero(), Zw { a: 0, b: 1, c: 0, d: 0 }],
    ]
}

pub open spec fn mat_swap() -> Seq<Seq<Zw>> {
    seq![
        seq![zw_one(), zw_zero(), zw_zero(), zw_zero()],
        seq![zw_zero(), zw_zero(), zw_one(), zw_zero()],
        seq![zw_zero(), zw_one(), zw_zero(), zw_zero()],
        seq![zw_zero(), zw_zero(), zw_zero(), zw_one()],
    ]
}

pub(crate) proof fn lemma_pow4_is_pow2_twice(k: nat)
    ensures
        pow(4, k) == pow2(2 * k),
    decreases k,
{
    reveal(pow);
    vstd::arithmetic::power2::lemma_pow2(2 * k);
    if k == 0 {
        vstd::arithmetic::power::lemma_pow0(4);
        vstd::arithmetic::power::lemma_pow0(2);
    } else {
        lemma_pow4_is_pow2_twice((k - 1) as nat);
        vstd::arithmetic::power2::lemma_pow2(2 * (k - 1) as nat);
        assert(pow(4, k) == 4 * pow(4, (k - 1) as nat));
        assert(pow(2, 2 * k) == 2 * pow(2, (2 * k - 1) as nat));
        assert(pow(2, (2 * k - 1) as nat) == 2 * pow(2, (2 * k - 2) as nat));
        assert(2 * (k - 1) as nat == (2 * k - 2) as nat);
    }
}

/// 4^(s-1) grows multiplicatively under tensoring and stays within the range
/// `times_wide` accepts while the width stays within `MAX_QUBITS`.
pub proof fn lemma_entry_bound_facts(s: nat)
    requires
        1 <= s <= MAX_QUBITS,
    ensures
        0 < entry_bound(s) <= pow2(58),
        pow2(58) < TIMES_ARG_BOUND as int,
        TIMES_ARG_BOUND as int == pow2(62),
        entry_bound(s) <= i64::MAX,
{
    lemma_pow4_is_pow2_twice((s - 1) as nat);
    lemma_pow2_pos(2 * (s - 1) as nat);
    if 2 * ((s - 1) as nat) < 58 {
        vstd::arithmetic::power2::lemma_pow2_strictly_increases(2 * (s - 1) as nat, 58);
    }
    lemma2_to64();
    vstd::arithmetic::power2::lemma2_to64_rest();
}

pub proof fn lemma_entry_bound_times(s1: nat, s2: nat)
    requires
        1 <= s1,
        1 <= s2,
    ensures
        4 * entry_bound(s1) * entry_bound(s2) == entry_bound(s1 + s2),
{
    reveal(pow);
    lemma_pow_adds(4, (s1 - 1) as nat, (s2 - 1) as nat);
    assert((s1 - 1) as nat + (s2 - 1) as nat == (s1 + s2 - 2) as nat);
    assert(pow(4, (s1 + s2 - 1) as nat) == 4 * pow(4, (s1 + s2 - 2) as nat));
    assert(4 * entry_bound(s1) * entry_bound(s2) == 4 * (entry_bound(s1) * entry_bound(s2)))
        by (nonlinear_arith);
}

/// Coordinates of sqrt(2)^e are bounded by 2^e.
pub proof fn lemma_sqrt2_pow_bounded(e: nat)
    ensures
        zw_bounded(zw_sqrt2_pow(e), pow2(e) as int),
    decreases e,
{
    if e == 0 {
        lemma2_to64();
    } else {
        lemma_sqrt2_pow_bounded((e - 1) as nat);
        lemma_pow2_adds((e - 1) as nat, 1);
        assert(pow2(1) == 2) by {
            lemma2_to64();
        }
        let p = zw_sqrt2_pow((e - 1) as nat);
        assert(zw_sqrt2_pow(e) == zw_times(p, zw_sqrt2()));
    }
}

/// sqrt(2)^e as a stored amplitude.
fn sqrt2_pow_amp(e: u64) -> (r: Amplitude)
    requires
        e <= 32,
    ensures
        r@ == zw_sqrt2_pow(e as nat),
        zw_bounded(r@, pow2(e as nat) as int),
{
    let mut k: u64 = 0;
    let mut acc = Amplitude::one();
    proof {
        lemma2_to64();
    }
    while k < e
        invariant
            k <= e <= 32,
            acc@ == zw_sqrt2_pow(k as nat),
            zw_bounded(acc@, pow2(k as nat) as int),
        decreases e - k,
    {
        let sqrt2 = Amplitude { a: 0, b: 1, c: 0, d: -1 };
        proof {
            lemma2_to64();
            vstd::arithmetic::power2::lemma2_to64_rest();
            vstd::arithmetic::power2::lemma_pow2_strictly_increases(k as nat, 62);
            lemma_sqrt2_pow_bounded((k + 1) as nat);
            vstd::arithmetic::power2::lemma_pow2_strictly_increases((k + 1) as nat, 63);
        }
        let wide = acc.times_wide(&sqrt2);
        acc = wide.narrow_within(Ghost(pow2((k + 1) as nat) as int));
        k = k + 1;
    }
    acc
}

impl QuantumGate {
    /// Builds a 1-qubit gate from its four entries; scale 0.
    fn one_qubit(e00: Amplitude, e01: Amplitude, e10: Amplitude, e11: Amplitude) -> (r:
        QuantumGate)
        ensures
            r@.size == 1,
            r@.scale == 0,
            r@.mat =~~= seq![seq![e00@, e01@], seq![e10@, e11@]],
    {
        QuantumGate { matrix: vec![vec![e00, e01], vec![e10, e11]], scale: 0, size: 1 }
    }

    /// The identity gate.
    pub fn i_gate() -> (r: QuantumGate)
        ensures
            gate_wf(r@),
            r@.size == 1,
            r@.scale == 0,
            r@.mat == mat_identity(),
    {
        let r = Self::one_qubit(
            Amplitude::one(),
            Amplitude::zero(),
            Amplitude::zero(),
            Amplitude::one(),
        );
        proof {
            lemma_wf_one_qubit(r@);
            assert(r@.mat =~~= mat_identity());
        }
        r
    }

    /// The Hadamard gate: entries 1/sqrt(2) times the stored +-1 matrix.
    pub fn h_gate() -> (r: QuantumGate)
        ensures
            gate_wf(r@),
            r@.size == 1,
            r@.scale == 1,
            r@.mat == mat_hadamard(),
    {
        let mut r = Self::one_qubit(
            Amplitude::one(),
            Amplitude::one(),
            Amplitude::one(),
            Amplitude { a: -1, b: 0, c: 0, d: 0 },
        );
        r.scale = 1;
        proof {
            lemma_wf_one_qubit(r@);
            assert(r@.mat =~~= mat_hadamard());
        }
        r
    }

    /// The Pauli-X (NOT) gate.
    pub fn x_gate() -> (r: QuantumGate)
        ensures
            gate_wf(r@),
            r@.size == 1,
            r@.scale == 0,
            r@.mat == mat_pauli_x(),
    {
        let r = Self::one_qubit(
            Amplitude::zero(),
            Amplitude::one(),
            Amplitude::one(),
            Amplitude::zero(),
        );
        proof {
            lemma_wf_one_qubit(r@);
            assert(r@.mat =~~= mat_pauli_x());
        }
        r
    }

    /// The Pauli-Y gate.
    pub fn y_gate() -> (r: QuantumGate)
        ensures
            gate_wf(r@),
            r@.size == 1,
            r@.scale == 0,
            r@.mat == mat_pauli_y(),
    {
        let r = Self::one_qubit(
            Amplitude::zero(),
            Amplitude { a: 0, b: 0, c: -1, d: 0 },
            Amplitude { a: 0, b: 0, c: 1, d: 0 },
            Amplitude::zero(),
        );
        proof {
            lemma_wf_one_qubit(r@);
            assert(r@.mat =~~= mat_pauli_y());
        }
        r
    }

    /// The Pauli-Z gate.
    pub fn z_gate() -> (r: QuantumGate)
        ensures
            gate_wf(r@),
            r@.size == 1,
            r@.scale == 0,
            r@.mat == mat_pauli_z(),
    {
        let r = Self::one_qubit(
            Amplitude::one(),
            Amplitude::zero(),
            Amplitude::zero(),
            Amplitude { a: -1, b: 0, c: 0, d: 0 },
        );
        proof {
            lemma_wf_one_qubit(r@);
            assert(r@.mat =~~= mat_pauli_z());
        }
        r
    }

    /// The S (phase) gate: diag(1, i).
    pub fn s_gate() -> (r: QuantumGate)
        ensures
            gate_wf(r@),
            r@.size == 1,
            r@.scale == 0,
            r@.mat == mat_phase_s(),
    {
        let r = Self::one_qubit(
            Amplitude::one(),
            Amplitude::zero(),
            Amplitude::zero(),
            Amplitude { a: 0, b: 0, c: 1, d: 0 },
        );
        proof {
            lemma_wf_one_qubit(r@);
            assert(r@.mat =~~= mat_phase_s());
        }
        r
    }

    /// The T gate: diag(1, e^{i*pi/4}).
    pub fn t_gate() -> (r: QuantumGate)
        ensures
            gate_wf(r@),
            r@.size == 1,
            r@.scale == 0,
            r@.mat == mat_phase_t(),
    {
        let r = Self::one_qubit(
            Amplitude::one(),
            Amplitude::zero(),
            Amplitude::zero(),
            Amplitude { a: 0, b: 1, c: 0, d: 0 },
        );
        proof {
            lemma_wf_one_qubit(r@);
            assert(r@.mat =~~= mat_phase_t());
        }
        r
    }

    /// The SWAP gate on two adjacent qubits.
    pub fn swap_gate() -> (r: QuantumGate)
        ensures
            gate_wf(r@),
            r@.size == 2,
            r@.scale == 0,
            r@.mat == mat_swap(),
    {
        let o = Amplitude::one;
        let z = Amplitude::zero;
        let r = QuantumGate {
            matrix: vec![
                vec![o(), z(), z(), z()],
                vec![z(), z(), o(), z()],
                vec![z(), o(), z(), z()],
                vec![z(), z(), z(), o()],
            ],
            scale: 0,
            size: 2,
        };
        proof {
            lemma2_to64();
            assert(r@.mat =~~= mat_swap());
            assert(entry_bound(2) == 4) by {
                lemma_pow4_is_pow2_twice(1);
                lemma2_to64();
            }
        }
        r
    }

    /// Adds a control qubit above the target operator: the result applies
    /// `target` exactly when the control qubit is 1.  The identity block is
    /// scaled by sqrt(2)^scale so both blocks share the target's denominator.
    pub fn c_down(target: QuantumGate) -> (r: QuantumGate)
        requires
            gate_wf(target@),
            target@.size < MAX_QUBITS,
        ensures
            gate_wf(r@),
            r@.size == target@.size + 1,
            r@.scale == target@.scale,
            r@.mat == cdown_mat(target@.mat, target@.scale),
    {
        let side = target.matrix.len();
        let ghost tv = target@;
        proof {
            lemma_pow2_pos(tv.size);
            lemma2_to64();
            vstd::arithmetic::power2::lemma_pow2_strictly_increases(tv.size, 32);
            lemma_pow2_adds(tv.size, 1);
        }
        let new_side = 2 * side;
        let diag = sqrt2_pow_amp(target.scale);
        let mut rows: Vec<Vec<Amplitude>> = Vec::new();
        let ghost spec_mat = cdown_mat(tv.mat, tv.scale);
        proof {
            lemma_entry_bound_facts(tv.size);
            lemma_entry_bound_facts((tv.size + 1) as nat);
            lemma_sqrt2_pow_bounded(tv.scale);
            // 2^scale <= 4^size: scale <= size means 2^scale <= 2^(2*size).
            if tv.scale < 2 * tv.size {
                vstd::arithmetic::power2::lemma_pow2_strictly_increases(tv.scale, 2 * tv.size);
            }
            lemma_pow4_is_pow2_twice(tv.size);
        }
        proof {
            assert(target.matrix@.len() == side);
            assert forall|k: int| 0 <= k < side implies (#[trigger] target.matrix@[k])@.len()
                == side by {
                assert(tv.mat[k].len() == tv.mat.len());
            }
        }
        let mut i: usize = 0;
        while i < new_side
            invariant
                gate_wf(tv),
                target@ == tv,
                side == pow2(tv.size),
                target.matrix@.len() == side,
                forall|k: int| 0 <= k < side ==> (#[trigger] target.matrix@[k])@.len() == side,
                new_side == 2 * side <= pow2(32),
                diag@ == zw_sqrt2_pow(tv.scale),
                zw_bounded(diag@, entry_bound((tv.size + 1) as nat)),
                spec_mat == cdown_mat(tv.mat, tv.scale),
                i <= new_side,
                rows@.len() == i,
                forall|k: int| 0 <= k < i ==> (#[trigger] rows@[k])@.len() == new_side,
                forall|k: int, l: int|
                    0 <= k < i && 0 <= l < new_side ==> (#[trigger] rows@[k]@[l])@ == spec_mat[k][l],
            decreases new_side - i,
        {
            let mut row: Vec<Amplitude> = Vec::new();
            let mut j: usize = 0;
            while j < new_side
                invariant
                    gate_wf(tv),
                    target@ == tv,
                    side == pow2(tv.size),
                    target.matrix@.len() == side,
                    forall|k: int| 0 <= k < side ==> (#[trigger] target.matrix@[k])@.len() == side,
                    new_side == 2 * side <= pow2(32),
                    diag@ == zw_sqrt2_pow(tv.scale),
                    zw_bounded(diag@, entry_bound((tv.size + 1) as nat)),
                    spec_mat == cdown_mat(tv.mat, tv.scale),
                    i < new_side,
                    j <= new_side,
                    row@.len() == j,
                    forall|l: int| 0 <= l < j ==> (#[trigger] row@[l])@ == spec_mat[i as int][l],
                decreases new_side - j,
            {
                let e: Amplitude = if i < side && j < side {
                    if i == j {
                        diag
                    } else {
                        Amplitude::zero()
                    }
                } else if i >= side && j >= side {
                    target.matrix[i - side][j - side]
                } else {
                    Amplitude::zero()
                };
                row.push(e);
                j = j + 1;
            }
            rows.push(row);
            i = i + 1;
        }
        let r = QuantumGate { matrix: rows, scale: target.scale, size: target.size + 1 };
        proof {
            assert(r@.mat =~~= spec_mat);
            lemma_entry_bound_facts((tv.size + 1) as nat);
            assert(entry_bound(tv.size) <= entry_bound((tv.size + 1) as nat)) by {
                lemma_pow_increases(4, (tv.size - 1) as nat, tv.size);
            }
            assert(gate_wf(r@));
        }
        r
    }

    /// Kronecker (tensor) product: `self`'s qubits come first, widths and
    /// denominator exponents add.
    pub fn kronecker(&self, other: &QuantumGate) -> (r: QuantumGate)
        requires
            gate_wf(self@),
            gate_wf(other@),
            self@.size + other@.size <= MAX_QUBITS,
        ensures
            gate_wf(r@),
            r@.size == self@.size + other@.size,
            r@.scale == self@.scale + other@.scale,
            r@.mat == kron_mat(self@.mat, other@.mat),
    {
        let sa = self.matrix.len();
        let sb = other.matrix.len();
        let ghost av = self@;
        let ghost bv = other@;
        proof {
            lemma_pow2_pos(av.size);
            lemma_pow2_pos(bv.size);
            lemma_pow2_adds(av.size, bv.size);
            lemma2_to64();
            vstd::arithmetic::power2::lemma_pow2_strictly_increases((av.size + bv.size) as nat, 32);
            lemma_entry_bound_facts(av.size);
            lemma_entry_bound_facts(bv.size);
            lemma_entry_bound_facts((av.size + bv.size) as nat);
            lemma_entry_bound_times(av.size, bv.size);
        }
        let side = sa * sb;
        let ghost spec_mat = kron_mat(av.mat, bv.mat);
        proof {
            assert forall|k: int| 0 <= k < sa implies (#[trigger] self.matrix@[k])@.len()
                == sa by {
                assert(av.mat[k].len() == av.mat.len());
            }
            assert forall|k: int| 0 <= k < sb implies (#[trigger] other.matrix@[k])@.len()
                == sb by {
                assert(bv.mat[k].len() == bv.mat.len());
            }
        }
        let mut rows: Vec<Vec<Amplitude>> = Vec::new();
        let mut i: usize = 0;
        while i < side
            invariant
                gate_wf(av),
                gate_wf(bv),
                self@ == av,
                other@ == bv,
                av.size + bv.size <= MAX_QUBITS,
                sa == pow2(av.size),
                sb == pow2(bv.size),
                self.matrix@.len() == sa,
                other.matrix@.len() == sb,
                forall|k: int| 0 <= k < sa ==> (#[trigger] self.matrix@[k])@.len() == sa,
                forall|k: int| 0 <= k < sb ==> (#[trigger] other.matrix@[k])@.len() == sb,
                side == sa * sb == pow2((av.size + bv.size) as nat) < pow2(32),
                4 * entry_bound(av.size) * entry_bound(bv.size) == entry_bound(
                    (av.size + bv.size) as nat,
                ),
                entry_bound((av.size + bv.size) as nat) <= i64::MAX,
                entry_bound(av.size) <= TIMES_ARG_BOUND as int,
                entry_bound(bv.size) <= TIMES_ARG_BOUND as int,
                spec_mat == kron_mat(av.mat, bv.mat),
                i <= side,
                rows@.len() == i,
                forall|k: int| 0 <= k < i ==> (#[trigger] rows@[k])@.len() == side,
                forall|k: int, l: int|
                    0 <= k < i && 0 <= l < side ==> (#[trigger] rows@[k]@[l])@ == spec_mat[k][l],
            decreases side - i,
        {
            let i1 = i / sb;
            let i2 = i % sb;
            proof {
                lemma_kron_index(i as int, sa as int, sb as int);
            }
            let mut row: Vec<Amplitude> = Vec::new();
            let mut j: usize = 0;
            while j < side
                invariant
                    gate_wf(av),
                    gate_wf(bv),
                    self@ == av,
                    other@ == bv,
                    av.size + bv.size <= MAX_QUBITS,
                    sa == pow2(av.size),
                    sb == pow2(bv.size),
                    self.matrix@.len() == sa,
                    other.matrix@.len() == sb,
                    forall|k: int| 0 <= k < sa ==> (#[trigger] self.matrix@[k])@.len() == sa,
                    forall|k: int| 0 <= k < sb ==> (#[trigger] other.matrix@[k])@.len() == sb,
                    side == sa * sb == pow2((av.size + bv.size) as nat) < pow2(32),
                    4 * entry_bound(av.size) * entry_bound(bv.size) == entry_bound(
                        (av.size + bv.size) as nat,
                    ),
                    entry_bound((av.size + bv.size) as nat) <= i64::MAX,
                    entry_bound(av.size) <= TIMES_ARG_BOUND as int,
                    entry_bound(bv.size) <= TIMES_ARG_BOUND as int,
                    spec_mat == kron_mat(av.mat, bv.mat),
                    i < side,
                    i1 == i / sb < sa,
                    i2 == i % sb < sb,
                    j <= side,
                    row@.len() == j,
                    forall|l: int| 0 <= l < j ==> (#[trigger] row@[l])@ == spec_mat[i as int][l],
                decreases side - j,
            {
                let j1 = j / sb;
                let j2 = j % sb;
                proof {
                    lemma_kron_index(j as int, sa as int, sb as int);
                    assert(zw_bounded(av.mat[i1 as int][j1 as int], entry_bound(av.size)));
                    assert(zw_bounded(bv.mat[i2 as int][j2 as int], entry_bound(bv.size)));
                    assert(self.matrix@[i1 as int]@[j1 as int]@ == av.mat[i1 as int][j1 as int]);
                    assert(other.matrix@[i2 as int]@[j2 as int]@ == bv.mat[i2 as int][j2 as int]);
                    lemma_zw_times_bounded(
                        av.mat[i1 as int][j1 as int],
                        bv.mat[i2 as int][j2 as int],
                        entry_bound(av.size),
                        entry_bound(bv.size),
                    );
                }
                let wide = self.matrix[i1][j1].times_wide(&other.matrix[i2][j2]);
                let e = wide.narrow_within(Ghost(entry_bound((av.size + bv.size) as nat)));
                row.push(e);
                j = j + 1;
            }
            rows.push(row);
            i = i + 1;
        }
        let r = QuantumGate { matrix: rows, scale: self.scale + other.scale, size: self.size + other.size };
        proof {
            assert(r@.mat =~~= spec_mat);
            let sz = (av.size + bv.size) as nat;
            assert forall|p: int, q: int|
                0 <= p < side && 0 <= q < side implies zw_bounded(
                #[trigger] spec_mat[p][q],
                entry_bound(sz),
            ) by {
                lemma_kron_index(p, sa as int, sb as int);
                lemma_kron_index(q, sa as int, sb as int);
                lemma_zw_times_bounded(
                    av.mat[p / sb as int][q / sb as int],
                    bv.mat[p % sb as int][q % sb as int],
                    entry_bound(av.size),
                    entry_bound(bv.size),
                );
            }
            assert(gate_wf(r@));
        }
        r
    }
}

/// Index split of a Kronecker product position into its two factors.
pub proof fn lemma_kron_index(i: int, sa: int, sb: int)
    requires
        0 <= i < sa * sb,
        0 < sa,
        0 < sb,
    ensures
        0 <= i / sb < sa,
        0 <= i % sb < sb,
{
    vstd::arithmetic::div_mod::lemma_mod_bound(i, sb);
    assert(0 <= i / sb < sa) by (nonlinear_arith)
        requires
            0 <= i < sa * sb,
            0 < sa,
            0 < sb,
    ;
}

/// Any 2x2 matrix of coordinate-wise unit entries is well-formed at width 1.
pub(crate) proof fn lemma_wf_one_qubit(g: GateView)
    requires
        g.size == 1,
        g.scale <= 1,
        g.mat.len() == 2,
        forall|i: int| 0 <= i < 2 ==> (#[trigger] g.mat[i]).len() == 2,
        forall|i: int, j: int| 0 <= i < 2 && 0 <= j < 2 ==> zw_bounded(#[trigger] g.mat[i][j], 1),
    ensures
        gate_wf(g),
{
    lemma2_to64();
    vstd::arithmetic::power::lemma_pow0(4);
    assert(entry_bound(1) == pow(4, 0));
}

/// Model of a gate placement: the operator together with the ordered qubit
/// rows it acts on.
#[verifier::ext_equal]
pub ghost struct PlacementView {
    pub gate: GateView,
    pub qubits: Seq<usize>,
}

/// A gate placement: the operator and the ordered list of qubit indices it
/// acts on; the order fixes the tensor basis order.
#[derive(Debug)]
pub struct QuantumGateWrapper {
    pub gate: QuantumGate,
    pub qubits: Vec<usize>,
}

impl View for QuantumGateWrapper {
    type V = PlacementView;

    open spec fn view(&self) -> PlacementView {
        PlacementView { gate: self.gate@, qubits: self.qubits@ }
    }
}

/// All placements of one time step, in ascending qubit order.
#[derive(Debug)]
pub struct GatesInTimeStep {
    pub gates: Vec<QuantumGateWrapper>,
}

impl View for GatesInTimeStep {
    type V = Seq<PlacementView>;

    open spec fn view(&self) -> Seq<PlacementView> {
        Seq::new(self.gates@.len(), |i: int| self.gates@[i]@)
    }
}

pub(crate) fn amplitude_rows_eq(a: &Vec<Amplitude>, b: &Vec<Amplitude>) -> (r: bool)
    ensures
        r == (a@ == b@),
{
    if a.len() != b.len() {
        proof {
            assert(a@ != b@);
        }
        return false;
    }
    let mut i: usize = 0;
    while i < a.len()
        invariant
            a@.len() == b@.len(),
            i <= a@.len(),
            forall|j: int| 0 <= j < i ==> a@[j] == b@[j],
        decreases a@.len() - i,
    {
        if !(a[i] == b[i]) {
            proof {
                assert(a@ != b@);
            }
            return false;
        }
        i = i + 1;
    }
    proof {
        assert(a@ =~~= b@);
    }
    true
}

impl PartialEq for QuantumGate {
    fn eq(&self, other: &QuantumGate) -> (r: bool) {
        if self.scale != other.scale || self.size != other.size {
            return false;
        }
        if self.matrix.len() != other.matrix.len() {
            proof {
                assert(self@.mat.len() != other@.mat.len());
            }
            return false;
        }
        let mut i: usize = 0;
        while i < self.matrix.len()
            invariant
                self.matrix@.len() == other.matrix@.len(),
                i <= self.matrix@.len(),
                forall|j: int| 0 <= j < i ==> self.matrix@[j]@ == other.matrix@[j]@,
            decreases self.matrix@.len() - i,
        {
            if !amplitude_rows_eq(&self.matrix[i], &other.matrix[i]) {
                proof {
                    assert(self.matrix@[i as int]@ != other.matrix@[i as int]@);
                    if self@.mat == other@.mat {
                        assert(self@.mat[i as int] == other@.mat[i as int]);
                        assert(self@.mat[i as int].len() == self.matrix@[i as int]@.len());
                        assert(other@.mat[i as int].len() == other.matrix@[i as int]@.len());
                        assert(self.matrix@[i as int]@.len() == other.matrix@[i as int]@.len());
                        assert forall|j: int|
                            0 <= j < self.matrix@[i as int]@.len() implies self.matrix@[i as int]@[j]
                            =~= other.matrix@[i as int]@[j] by {
                            assert(self@.mat[i as int][j] == self.matrix@[i as int]@[j]@);
                            assert(other@.mat[i as int][j] == other.matrix@[i as int]@[j]@);
                        }
                        assert(self.matrix@[i as int]@ =~~= other.matrix@[i as int]@);
                    }
                }
                return false;
            }
            i = i + 1;
        }
        proof {
            assert(self@.mat =~~= other@.mat);
            assert(self@ =~= other@);
        }
        true
    }
}

impl vstd::std_specs::cmp::PartialEqSpecImpl for QuantumGate {
    open spec fn obeys_eq_spec() -> bool {
        true
    }

    open spec fn eq_spec(&self, other: &QuantumGate) -> bool {
        self@ == other@
    }
}

impl PartialEq for QuantumGateWrapper {
    fn eq(&self, other: &QuantumGateWrapper) -> (r: bool) {
        if !(self.gate == other.gate) {
            return false;
        }
        if self.qubits.len() != other.qubits.len() {
            proof {
                assert(self@.qubits != other@.qubits);
            }
            return false;
        }
        let mut i: usize = 0;
        while i < self.qubits.len()
            invariant
                self.qubits@.len() == other.qubits@.len(),
                i <= self.qubits@.len(),
                forall|j: int| 0 <= j < i ==> self.qubits@[j] == other.qubits@[j],
            decreases self.qubits@.len() - i,
        {
            if self.qubits[i] != other.qubits[i] {
                proof {
                    assert(self@.qubits != other@.qubits);
                }
                return false;
            }
            i = i + 1;
        }
        proof {
            assert(self@.qubits =~~= other@.qubits);
            assert(self@ =~= other@);
        }
        true
    }
}

impl vstd::std_specs::cmp::PartialEqSpecImpl for QuantumGateWrapper {
    open spec fn obeys_eq_spec() -> bool {
        true
    }

    open spec fn eq_spec(&self, other: &QuantumGateWrapper) -> bool {
        self@ == other@
    }
}

impl PartialEq for GatesInTimeStep {
    fn eq(&self, other: &GatesInTimeStep) -> (r: bool) {
        if self.gates.len() != other.gates.len() {
            proof {
                assert(self@.len() != other@.len());
            }
            return false;
        }
        let mut i: usize = 0;
        while i < self.gates.len()
            invariant
                self.gates@.len() == other.gates@.len(),
                i <= self.gates@.len(),
                forall|j: int| 0 <= j < i ==> self.gates@[j]@ == other.gates@[j]@,
            decreases self.gates@.len() - i,
        {
            if !(self.gates[i] == other.gates[i]) {
                proof {
                    assert(self@[i as int] != other@[i as int]);
                }
                return false;
            }
            i = i + 1;
        }
        proof {
            assert(self@ =~~= other@);
        }
        true
    }
}

impl vstd::std_specs::cmp::PartialEqSpecImpl for GatesInTimeStep {
    open spec fn obeys_eq_spec() -> bool {
        true
    }

    open spec fn eq_spec(&self, other: &GatesInTimeStep) -> bool {
        self@ == other@
    }
}

} // verus!
