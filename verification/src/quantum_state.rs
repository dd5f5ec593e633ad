use vstd::prelude::*;

use crate::amplitude::{
    amp_in_range, lemma_zw_times_bounded, zw_bounded, zw_one, zw_plus, zw_times, zw_zero,
    Amplitude, WideAmp, Zw, AMP_BOUND, TIMES_ARG_BOUND,
};
use crate::quantum_gate::{
    entry_bound, gate_wf, lemma_entry_bound_facts, lemma_kron_index, GateView, QuantumGate,
    MAX_QUBITS,
};
use vstd::arithmetic::power2::{lemma2_to64, lemma_pow2_adds, lemma_pow2_pos, pow2};

verus! {

/// Mathematical model of a state fragment: the amplitude vector is
/// `amps / sqrt(2)^scale`.
#[verifier::ext_equal]
pub ghost struct StateView {
    pub amps: Seq<Zw>,
    pub scale: nat,
}

/// The amplitude column of one state fragment, exact up to the shared
/// denominator sqrt(2)^scale.
#[derive(Clone, Debug)]
pub struct QuantumState {
    pub col: Vec<Amplitude>,
    pub scale: u64,
}

impl View for QuantumState {
    type V = StateView;

    open spec fn view(&self) -> StateView {
        StateView {
            amps: Seq::new(self.col@.len(), |i: int| self.col@[i]@),
            scale: self.scale as nat,
        }
    }
}

/// Every stored amplitude within the representable range.
pub open spec fn state_wf(s: StateView) -> bool {
    &&& s.amps.len() >= 1
    &&& forall|i: int| 0 <= i < s.amps.len() ==> amp_in_range(#[trigger] s.amps[i])
}

/// Kronecker (tensor) product of two amplitude vectors; the first factor's
/// index forms the high bits.
pub open spec fn kron_vec(x: Seq<Zw>, y: Seq<Zw>) -> Seq<Zw> {
    Seq::new(x.len() * y.len(), |i: int| zw_times(x[i / y.len() as int], y[i % y.len() as int]))
}

/// The tensor product stays representable.
pub open spec fn kron_vec_fits(x: Seq<Zw>, y: Seq<Zw>) -> bool {
    forall|i: int| 0 <= i < x.len() * y.len() ==> amp_in_range(#[trigger] kron_vec(x, y)[i])
}

/// A tensor product of two fragments succeeds: the combined length and
/// denominator exponent stay within the machine types and every amplitude
/// stays representable.
pub open spec fn kron_ok(a: StateView, b: StateView) -> bool {
    &&& a.amps.len() * b.amps.len() <= usize::MAX
    &&& a.scale + b.scale <= u64::MAX
    &&& kron_vec_fits(a.amps, b.amps)
}

/// A gate application succeeds: every output amplitude stays representable
/// and the denominator exponent stays within its machine type.
pub open spec fn apply_ok(g: crate::quantum_gate::GateView, s: StateView) -> bool {
    &&& mat_vec_fits(g.mat, s.amps)
    &&& s.scale + g.scale <= u64::MAX
}

/// Sum of the first `k` products row[j] * v[j].
pub open spec fn dot_prefix(row: Seq<Zw>, v: Seq<Zw>, k: int) -> Zw
    decreases k,
{
    if k <= 0 {
        zw_zero()
    } else {
        zw_plus(dot_prefix(row, v, k - 1), zw_times(row[k - 1], v[k - 1]))
    }
}

/// Matrix-vector product, each entry the full dot product of a row with `v`.
pub open spec fn mat_vec(m: Seq<Seq<Zw>>, v: Seq<Zw>) -> Seq<Zw> {
    Seq::new(m.len(), |i: int| dot_prefix(m[i], v, v.len() as int))
}

/// The matrix-vector product stays representable.
pub open spec fn mat_vec_fits(m: Seq<Seq<Zw>>, v: Seq<Zw>) -> bool {
    forall|i: int| 0 <= i < m.len() ==> amp_in_range(#[trigger] mat_vec(m, v)[i])
}

/// Basis index of a list of bits, first bit most significant.
pub open spec fn bits_index(bits: Seq<u8>) -> int
    decreases bits.len(),
{
    if bits.len() == 0 {
        0
    } else {
        bits_index(bits.drop_last()) * 2 + bits.last()
    }
}

pub proof fn lemma_bits_index_range(bits: Seq<u8>)
    requires
        forall|i: int| 0 <= i < bits.len() ==> #[trigger] bits[i] <= 1,
    ensures
        0 <= bits_index(bits) < pow2(bits.len()),
    decreases bits.len(),
{
    if bits.len() == 0 {
        lemma2_to64();
    } else {
        lemma_bits_index_range(bits.drop_last());
        lemma_pow2_adds((bits.len() - 1) as nat, 1);
        lemma2_to64();
    }
}

/// Squared-magnitude coordinates of one amplitude: |z|^2 = q + p * sqrt(2).
pub open spec fn zw_normsq_q(z: Zw) -> int {
    z.a * z.a + z.b * z.b + z.c * z.c + z.d * z.d
}

pub open spec fn zw_normsq_p(z: Zw) -> int {
    z.a * z.b + z.b * z.c + z.c * z.d - z.d * z.a
}

proof fn lemma_normsq_term_bounds(z: Zw, bb: int)
    requires
        zw_bounded(z, bb),
        0 < bb,
    ensures
        0 <= zw_normsq_q(z) <= 4 * (bb * bb),
        -(4 * (bb * bb)) <= zw_normsq_p(z) <= 4 * (bb * bb),
{
    crate::amplitude::lemma_abs_times_bound(z.a, z.a, bb, bb);
    crate::amplitude::lemma_abs_times_bound(z.b, z.b, bb, bb);
    crate::amplitude::lemma_abs_times_bound(z.c, z.c, bb, bb);
    crate::amplitude::lemma_abs_times_bound(z.d, z.d, bb, bb);
    crate::amplitude::lemma_abs_times_bound(z.a, z.b, bb, bb);
    crate::amplitude::lemma_abs_times_bound(z.b, z.c, bb, bb);
    crate::amplitude::lemma_abs_times_bound(z.c, z.d, bb, bb);
    crate::amplitude::lemma_abs_times_bound(z.d, z.a, bb, bb);
    assert(0 <= z.a * z.a) by (nonlinear_arith);
    assert(0 <= z.b * z.b) by (nonlinear_arith);
    assert(0 <= z.c * z.c) by (nonlinear_arith);
    assert(0 <= z.d * z.d) by (nonlinear_arith);
}

/// Sum of squared magnitudes of the first `k` amplitudes, as (q, p) with the
/// exact value q + p * sqrt(2).
pub open spec fn normsq_prefix(amps: Seq<Zw>, k: int) -> (int, int)
    decreases k,
{
    if k <= 0 {
        (0, 0)
    } else {
        let rest = normsq_prefix(amps, k - 1);
        (rest.0 + zw_normsq_q(amps[k - 1]), rest.1 + zw_normsq_p(amps[k - 1]))
    }
}

impl QuantumState {
    /// The computational basis state |bits>, e.g. `new(&vec![1, 0])` is
    /// |q0=1, q1=0>: amplitude 1 at the basis index, 0 elsewhere.
    pub fn new(bits: &Vec<u8>) -> (r: QuantumState)
        requires
            1 <= bits@.len() <= MAX_QUBITS,
            forall|i: int| 0 <= i < bits@.len() ==> #[trigger] bits@[i] <= 1,
        ensures
            state_wf(r@),
            r@.scale == 0,
            r@.amps.len() == pow2(bits@.len()),
            forall|i: int|
                0 <= i < r@.amps.len() ==> #[trigger] r@.amps[i] == if i == bits_index(bits@) {
                    zw_one()
                } else {
                    zw_zero()
                },
    {
        let n = bits.len();
        let mut size: usize = 1;
        let mut index: usize = 0;
        let mut k: usize = 0;
        proof {
            lemma2_to64();
            assert(bits@.subrange(0, 0) =~~= Seq::<u8>::empty());
        }
        while k < n
            invariant
                k <= n == bits@.len() <= MAX_QUBITS,
                forall|i: int| 0 <= i < bits@.len() ==> #[trigger] bits@[i] <= 1,
                size == pow2(k as nat),
                size <= pow2(bits@.len()),
                index == bits_index(bits@.subrange(0, k as int)),
                0 <= index < size,
            decreases n - k,
        {
            proof {
                lemma_pow2_adds(k as nat, 1);
                lemma2_to64();
                vstd::arithmetic::power2::lemma_pow2_strictly_increases(k as nat, MAX_QUBITS as nat);
                if (k + 1) as nat <= bits@.len() && ((k + 1) as nat) < bits@.len() {
                    vstd::arithmetic::power2::lemma_pow2_strictly_increases(
                        (k + 1) as nat,
                        bits@.len(),
                    );
                }
                assert(bits@.subrange(0, k + 1).drop_last() =~~= bits@.subrange(0, k as int));
                assert(bits@.subrange(0, k + 1).last() == bits@[k as int]);
            }
            size = size * 2;
            index = index * 2 + (bits[k] as usize);
            k = k + 1;
        }
        proof {
            assert(bits@.subrange(0, n as int) =~~= bits@);
        }
        let mut col: Vec<Amplitude> = Vec::new();
        let mut i: usize = 0;
        while i < size
            invariant
                i <= size,
                index < size,
                col@.len() == i,
                forall|j: int|
                    0 <= j < i ==> (#[trigger] col@[j])@ == if j == index {
                        zw_one()
                    } else {
                        zw_zero()
                    },
            decreases size - i,
        {
            if i == index {
                col.push(Amplitude::one());
            } else {
                col.push(Amplitude::zero());
            }
            i = i + 1;
        }
        let r = QuantumState { col, scale: 0 };
        proof {
            lemma2_to64();
            assert(pow2(bits@.len()) >= 1) by {
                lemma_pow2_pos(bits@.len());
            }
        }
        r
    }

    /// Tensor product of two fragments; `self`'s qubits come first.  `None`
    /// reports an amplitude outside the representable range.
    pub fn kronecker(&self, other: &QuantumState) -> (r: Option<QuantumState>)
        requires
            state_wf(self@),
            state_wf(other@),
        ensures
            r is Some <==> kron_ok(self@, other@),
            r matches Some(s) ==> {
                &&& state_wf(s@)
                &&& s@.amps == kron_vec(self@.amps, other@.amps)
                &&& s@.scale == self@.scale + other@.scale
            },
    {
        let la = self.col.len();
        let lb = other.col.len();
        let len = match la.checked_mul(lb) {
            Some(l) => l,
            None => {
                return None;
            },
        };
        let scale = match self.scale.checked_add(other.scale) {
            Some(sc) => sc,
            None => {
                return None;
            },
        };
        let ghost xa = self@.amps;
        let ghost xb = other@.amps;
        let ghost target = kron_vec(xa, xb);
        let mut col: Vec<Amplitude> = Vec::new();
        let mut i: usize = 0;
        proof {
            lemma2_to64();
        }
        while i < len
            invariant
                state_wf(self@),
                state_wf(other@),
                xa == self@.amps,
                xb == other@.amps,
                la == xa.len() >= 1,
                lb == xb.len() >= 1,
                len == la * lb <= usize::MAX,
                target == kron_vec(xa, xb),
                i <= len,
                col@.len() == i,
                forall|j: int| 0 <= j < i ==> amp_in_range(#[trigger] target[j]),
                forall|j: int| 0 <= j < i ==> (#[trigger] col@[j])@ == target[j],
            decreases len - i,
        {
            let i1 = i / lb;
            let i2 = i % lb;
            proof {
                lemma_kron_index(i as int, la as int, lb as int);
                lemma2_to64();
                lemma_zw_times_bounded(xa[i1 as int], xb[i2 as int], AMP_BOUND as int, AMP_BOUND as int);
            }
            let wide = self.col[i1].times_wide(&other.col[i2]);
            match wide.narrow_checked() {
                Some(z) => {
                    col.push(z);
                },
                None => {
                    proof {
                        assert(!amp_in_range(target[i as int]));
                    }
                    return None;
                },
            }
            i = i + 1;
        }
        let r = QuantumState { col, scale };
        proof {
            assert(r@.amps =~~= target);
            assert(kron_vec_fits(xa, xb));
            assert(len >= 1) by (nonlinear_arith)
                requires
                    len == la * lb,
                    la >= 1,
                    lb >= 1,
            ;
            assert(state_wf(r@));
        }
        Some(r)
    }

    /// Applies a gate by exact matrix-vector multiplication; the denominator
    /// exponents add.  `None` reports an amplitude outside the range.
    pub fn apply_gate(&self, gate: &QuantumGate) -> (r: Option<QuantumState>)
        requires
            state_wf(self@),
            gate_wf(gate@),
            gate@.mat.len() == self@.amps.len(),
        ensures
            r is Some <==> apply_ok(gate@, self@),
            r matches Some(s) ==> {
                &&& state_wf(s@)
                &&& s@.amps == mat_vec(gate@.mat, self@.amps)
                &&& s@.scale == self@.scale + gate@.scale
            },
    {
        let scale = match self.scale.checked_add(gate.scale) {
            Some(sc) => sc,
            None => {
                return None;
            },
        };
        let side = self.col.len();
        let ghost gv = gate@;
        let ghost v = self@.amps;
        let ghost target = mat_vec(gv.mat, v);
        let ghost tb: int = 4 * entry_bound(gv.size) * (AMP_BOUND as int);
        proof {
            lemma_entry_bound_facts(gv.size);
            lemma2_to64();
            vstd::arithmetic::power2::lemma2_to64_rest();
            assert(0 < tb <= 2475880078570760549798248448) by (nonlinear_arith)
                requires
                    0 < entry_bound(gv.size) <= pow2(58),
                    pow2(58) == 288230376151711744,
                    tb == 4 * entry_bound(gv.size) * (AMP_BOUND as int),
            ;
            assert(side <= pow2(MAX_QUBITS as nat)) by {
                assert(gv.mat.len() == pow2(gv.size));
                if gv.size < MAX_QUBITS as nat {
                    vstd::arithmetic::power2::lemma_pow2_strictly_increases(
                        gv.size,
                        MAX_QUBITS as nat,
                    );
                }
            }
            assert(gate.matrix@.len() == side);
            assert forall|kk: int| 0 <= kk < side implies (#[trigger] gate.matrix@[kk])@.len()
                == side by {
                assert(gv.mat[kk].len() == gv.mat.len());
            }
        }
        let mut col: Vec<Amplitude> = Vec::new();
        let mut i: usize = 0;
        while i < side
            invariant
                state_wf(self@),
                gate_wf(gv),
                gate@ == gv,
                v == self@.amps,
                side == self.col@.len() == v.len() == gv.mat.len(),
                side <= pow2(MAX_QUBITS as nat),
                gate.matrix@.len() == side,
                forall|kk: int| 0 <= kk < side ==> (#[trigger] gate.matrix@[kk])@.len() == side,
                target == mat_vec(gv.mat, v),
                tb == 4 * entry_bound(gv.size) * (AMP_BOUND as int),
                0 < tb <= 2475880078570760549798248448,
                i <= side,
                col@.len() == i,
                forall|j: int| 0 <= j < i ==> amp_in_range(#[trigger] target[j]),
                forall|j: int| 0 <= j < i ==> (#[trigger] col@[j])@ == target[j],
            decreases side - i,
        {
            let mut acc = WideAmp::zero();
            let mut j: usize = 0;
            while j < side
                invariant
                    state_wf(self@),
                    gate_wf(gv),
                    gate@ == gv,
                    v == self@.amps,
                    side == self.col@.len() == v.len() == gv.mat.len(),
                    side <= pow2(MAX_QUBITS as nat),
                    gate.matrix@.len() == side,
                    forall|kk: int| 0 <= kk < side ==> (#[trigger] gate.matrix@[kk])@.len() == side,
                    tb == 4 * entry_bound(gv.size) * (AMP_BOUND as int),
                    0 < tb <= 2475880078570760549798248448,
                    i < side,
                    j <= side,
                    acc@ == dot_prefix(gv.mat[i as int], v, j as int),
                    zw_bounded(acc@, j * tb),
                decreases side - j,
            {
                let ghost e = gv.mat[i as int][j as int];
                let ghost x = v[j as int];
                proof {
                    lemma_entry_bound_facts(gv.size);
                    lemma2_to64();
                    assert(zw_bounded(e, entry_bound(gv.size)));
                    assert(amp_in_range(x));
                    assert(zw_bounded(e, TIMES_ARG_BOUND as int));
                    assert(zw_bounded(x, TIMES_ARG_BOUND as int));
                    lemma_zw_times_bounded(e, x, entry_bound(gv.size), AMP_BOUND as int);
                    assert(4 * entry_bound(gv.size) * (AMP_BOUND as int) == tb);
                    assert(zw_bounded(zw_times(e, x), tb));
                    assert((j + 1) * tb <= 2658455991569831745807614120560689152)
                        by (nonlinear_arith)
                        requires
                            0 <= j + 1 <= 1073741824,
                            0 < tb <= 2475880078570760549798248448,
                    ;
                    assert(j * tb + tb == (j + 1) * tb) by (nonlinear_arith);
                    assert(side <= 1073741824) by {
                        lemma2_to64();
                    }
                }
                let term = gate.matrix[i][j].times_wide(&self.col[j]);
                acc = acc.plus(term);
                j = j + 1;
            }
            proof {
                assert(acc@ == dot_prefix(gv.mat[i as int], v, v.len() as int));
                assert(target[i as int] == acc@);
            }
            match acc.narrow_checked() {
                Some(z) => {
                    col.push(z);
                },
                None => {
                    proof {
                        assert(!amp_in_range(target[i as int]));
                    }
                    return None;
                },
            }
            i = i + 1;
        }
        let r = QuantumState { col, scale };
        proof {
            assert(r@.amps =~~= target);
            assert(mat_vec_fits(gv.mat, v));
            assert(state_wf(r@));
        }
        Some(r)
    }

    /// Exact squared norm of the column, as (q, p) with value q + p * sqrt(2);
    /// the state's squared magnitude is that value divided by 2^scale.
    #[verifier::rlimit(50)]
    pub fn norm_sq(&self) -> (r: (i128, i128))
        requires
            state_wf(self@),
            self@.amps.len() <= pow2(MAX_QUBITS as nat),
        ensures
            (r.0 as int, r.1 as int) == normsq_prefix(self@.amps, self@.amps.len() as int),
    {
        let len = self.col.len();
        let mut q: i128 = 0;
        let mut p: i128 = 0;
        let mut k: usize = 0;
        proof {
            lemma2_to64();
        }
        while k < len
            invariant
                state_wf(self@),
                len == self.col@.len() == self@.amps.len() <= 1073741824,
                k <= len,
                (q as int, p as int) == normsq_prefix(self@.amps, k as int),
                -(k as int) * 18446744073709551616 <= q as int <= (k as int) * 18446744073709551616,
                -(k as int) * 18446744073709551616 <= p as int <= (k as int) * 18446744073709551616,
            decreases len - k,
        {
            let z = &self.col[k];
            let ghost zz = self@.amps[k as int];
            proof {
                assert(amp_in_range(zz));
                let bb: int = AMP_BOUND as int;
                lemma_normsq_term_bounds(zz, bb);
                assert(4 * (bb * bb) == 18446744073709551616);
                assert((k as int) * 18446744073709551616 + 18446744073709551616 == ((k as int) + 1)
                    * 18446744073709551616) by (nonlinear_arith);
                assert(((k as int) + 1) * 18446744073709551616 <= 1073741824 * 18446744073709551616)
                    by (nonlinear_arith)
                    requires
                        0 <= k as int,
                        (k as int) + 1 <= 1073741824,
                ;
            }
            let za = z.a as i128;
            let zb = z.b as i128;
            let zc = z.c as i128;
            let zd = z.d as i128;
            proof {
                let b2: int = 4611686018427387904;
                assert(0 <= za * za <= b2 && 0 <= zb * zb <= b2 && 0 <= zc * zc <= b2 && 0 <= zd
                    * zd <= b2 && -b2 <= za * zb <= b2 && -b2 <= zb * zc <= b2 && -b2 <= zc * zd
                    <= b2 && -b2 <= zd * za <= b2) by (nonlinear_arith)
                    requires
                        -2147483648 <= za as int <= 2147483648,
                        -2147483648 <= zb as int <= 2147483648,
                        -2147483648 <= zc as int <= 2147483648,
                        -2147483648 <= zd as int <= 2147483648,
                        b2 == 4611686018427387904,
                ;
            }
            q = q + (za * za + zb * zb + zc * zc + zd * zd);
            p = p + (za * zb + zb * zc + zc * zd - zd * za);
            k = k + 1;
        }
        (q, p)
    }
}

impl PartialEq for QuantumState {
    fn eq(&self, other: &QuantumState) -> (r: bool) {
        if self.scale != other.scale {
            return false;
        }
        let r = crate::quantum_gate::amplitude_rows_eq(&self.col, &other.col);
        proof {
            if r {
                assert(self@.amps =~~= other@.amps);
                assert(self@ =~= other@);
            } else {
                if self@.amps == other@.amps {
                    assert(self@.amps.len() == self.col@.len());
                    assert forall|j: int| 0 <= j < self.col@.len() implies self.col@[j] =~= other
                        .col@[j] by {
                        assert(self@.amps[j] == self.col@[j]@);
                        assert(other@.amps[j] == other.col@[j]@);
                    }
                    assert(self.col@ =~~= other.col@);
                }
            }
        }
        r
    }
}

impl vstd::std_specs::cmp::PartialEqSpecImpl for QuantumState {
    open spec fn obeys_eq_spec() -> bool {
        true
    }

    open spec fn eq_spec(&self, other: &QuantumState) -> bool {
        self@ == other@
    }
}

} // verus!
