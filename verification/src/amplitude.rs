use vstd::prelude::*;

verus! {

/// An element of the cyclotomic ring Z[w], where w = e^{i*pi/4} is a primitive
/// eighth root of unity: the value a + b*w + c*w^2 + d*w^3.
///
/// Since w^2 = i and w - w^3 = sqrt(2), the ring holds 1, i, sqrt(2) and
/// e^{i*pi/4}; the matrix entries of every named gate and of their tensor and
/// controlled combinations therefore live here exactly, up to the global
/// power of 1/sqrt(2) that gates and states carry in their `scale` field.
#[verifier::ext_equal]
pub ghost struct Zw {
    pub a: int,
    pub b: int,
    pub c: int,
    pub d: int,
}

pub open spec fn zw_zero() -> Zw {
    Zw { a: 0, b: 0, c: 0, d: 0 }
}

pub open spec fn zw_one() -> Zw {
    Zw { a: 1, b: 0, c: 0, d: 0 }
}

/// sqrt(2) = w - w^3.
pub open spec fn zw_sqrt2() -> Zw {
    Zw { a: 0, b: 1, c: 0, d: -1 }
}

pub open spec fn zw_plus(x: Zw, y: Zw) -> Zw {
    Zw { a: x.a + y.a, b: x.b + y.b, c: x.c + y.c, d: x.d + y.d }
}

/// Ring product, reduced by w^4 = -1.
pub open spec fn zw_times(x: Zw, y: Zw) -> Zw {
    Zw {
        a: x.a * y.a - x.b * y.d - x.c * y.c - x.d * y.b,
        b: x.a * y.b + x.b * y.a - x.c * y.d - x.d * y.c,
        c: x.a * y.c + x.b * y.b + x.c * y.a - x.d * y.d,
        d: x.a * y.d + x.b * y.c + x.c * y.b + x.d * y.a,
    }
}

/// sqrt(2)^e as a ring element.
pub open spec fn zw_sqrt2_pow(e: nat) -> Zw
    decreases e,
{
    if e == 0 {
        zw_one()
    } else {
        zw_times(zw_sqrt2_pow((e - 1) as nat), zw_sqrt2())
    }
}

/// All four coordinates bounded by `bound` in absolute value.
pub open spec fn zw_bounded(z: Zw, bound: int) -> bool {
    &&& -bound <= z.a <= bound
    &&& -bound <= z.b <= bound
    &&& -bound <= z.c <= bound
    &&& -bound <= z.d <= bound
}

/// Bound kept by every amplitude a state fragment stores: 2^31.
pub const AMP_BOUND: i64 = 2147483648;

/// Largest argument magnitude `Amplitude::times_wide` accepts: 2^62.
pub const TIMES_ARG_BOUND: i64 = 4611686018427387904;

/// A state amplitude fits the representation when all coordinates stay
/// within `AMP_BOUND`; evolution reports overflow on the first value outside.
pub open spec fn amp_in_range(z: Zw) -> bool {
    zw_bounded(z, AMP_BOUND as int)
}

pub(crate) proof fn lemma_abs_times_bound(x: int, y: int, bx: int, by: int)
    requires
        -bx <= x <= bx,
        -by <= y <= by,
        0 <= bx,
        0 <= by,
    ensures
        -(bx * by) <= x * y <= bx * by,
{
    assert(-(bx * by) <= x * y <= bx * by) by (nonlinear_arith)
        requires
            -bx <= x <= bx,
            -by <= y <= by,
            0 <= bx,
            0 <= by,
    ;
}

/// Coordinates of a product are bounded by four times the product of the
/// factors' coordinate bounds.
pub proof fn lemma_zw_times_bounded(x: Zw, y: Zw, bx: int, by: int)
    requires
        zw_bounded(x, bx),
        zw_bounded(y, by),
        0 <= bx,
        0 <= by,
    ensures
        zw_bounded(zw_times(x, y), 4 * bx * by),
{
    lemma_abs_times_bound(x.a, y.a, bx, by);
    lemma_abs_times_bound(x.a, y.b, bx, by);
    lemma_abs_times_bound(x.a, y.c, bx, by);
    lemma_abs_times_bound(x.a, y.d, bx, by);
    lemma_abs_times_bound(x.b, y.a, bx, by);
    lemma_abs_times_bound(x.b, y.b, bx, by);
    lemma_abs_times_bound(x.b, y.c, bx, by);
    lemma_abs_times_bound(x.b, y.d, bx, by);
    lemma_abs_times_bound(x.c, y.a, bx, by);
    lemma_abs_times_bound(x.c, y.b, bx, by);
    lemma_abs_times_bound(x.c, y.c, bx, by);
    lemma_abs_times_bound(x.c, y.d, bx, by);
    lemma_abs_times_bound(x.d, y.a, bx, by);
    lemma_abs_times_bound(x.d, y.b, bx, by);
    lemma_abs_times_bound(x.d, y.c, bx, by);
    lemma_abs_times_bound(x.d, y.d, bx, by);
    assert(4 * bx * by == 4 * (bx * by)) by (nonlinear_arith);
}

/// Exact executable amplitude: the four Z[w] coordinates as signed integers.
#[derive(Clone, Copy, Debug, PartialEq, Eq, Structural)]
#[verifier::ext_equal]
pub struct Amplitude {
    pub a: i64,
    pub b: i64,
    pub c: i64,
    pub d: i64,
}

impl View for Amplitude {
    type V = Zw;

    open spec fn view(&self) -> Zw {
        Zw { a: self.a as int, b: self.b as int, c: self.c as int, d: self.d as int }
    }
}

/// Wide accumulator for sums of amplitude products; large enough that every
/// intermediate of a dot product or tensor entry is computed exactly.
#[derive(Clone, Copy, Debug)]
pub struct WideAmp {
    pub a: i128,
    pub b: i128,
    pub c: i128,
    pub d: i128,
}

impl View for WideAmp {
    type V = Zw;

    open spec fn view(&self) -> Zw {
        Zw { a: self.a as int, b: self.b as int, c: self.c as int, d: self.d as int }
    }
}

impl Amplitude {
    pub fn zero() -> (r: Amplitude)
        ensures
            r@ == zw_zero(),
    {
        Amplitude { a: 0, b: 0, c: 0, d: 0 }
    }

    pub fn one() -> (r: Amplitude)
        ensures
            r@ == zw_one(),
    {
        Amplitude { a: 1, b: 0, c: 0, d: 0 }
    }

    /// Exact product of two amplitudes, computed in the wide accumulator.
    pub fn times_wide(&self, other: &Amplitude) -> (r: WideAmp)
        requires
            zw_bounded(self@, TIMES_ARG_BOUND as int),
            zw_bounded(other@, TIMES_ARG_BOUND as int),
        ensures
            r@ == zw_times(self@, other@),
            zw_bounded(r@, 4 * (TIMES_ARG_BOUND as int) * (TIMES_ARG_BOUND as int)),
    {
        proof {
            lemma_zw_times_bounded(self@, other@, TIMES_ARG_BOUND as int, TIMES_ARG_BOUND as int);
        }
        let xa = self.a as i128;
        let xb = self.b as i128;
        let xc = self.c as i128;
        let xd = self.d as i128;
        let ya = other.a as i128;
        let yb = other.b as i128;
        let yc = other.c as i128;
        let yd = other.d as i128;
        proof {
            let bb = TIMES_ARG_BOUND as int;
            lemma_abs_times_bound(xa as int, ya as int, bb, bb);
            lemma_abs_times_bound(xb as int, yd as int, bb, bb);
            lemma_abs_times_bound(xc as int, yc as int, bb, bb);
            lemma_abs_times_bound(xd as int, yb as int, bb, bb);
            lemma_abs_times_bound(xa as int, yb as int, bb, bb);
            lemma_abs_times_bound(xb as int, ya as int, bb, bb);
            lemma_abs_times_bound(xc as int, yd as int, bb, bb);
            lemma_abs_times_bound(xd as int, yc as int, bb, bb);
            lemma_abs_times_bound(xa as int, yc as int, bb, bb);
            lemma_abs_times_bound(xb as int, yb as int, bb, bb);
            lemma_abs_times_bound(xc as int, ya as int, bb, bb);
            lemma_abs_times_bound(xd as int, yd as int, bb, bb);
            lemma_abs_times_bound(xa as int, yd as int, bb, bb);
            lemma_abs_times_bound(xb as int, yc as int, bb, bb);
            lemma_abs_times_bound(xc as int, yb as int, bb, bb);
            lemma_abs_times_bound(xd as int, ya as int, bb, bb);
        }
        WideAmp {
            a: xa * ya - xb * yd - xc * yc - xd * yb,
            b: xa * yb + xb * ya - xc * yd - xd * yc,
            c: xa * yc + xb * yb + xc * ya - xd * yd,
            d: xa * yd + xb * yc + xc * yb + xd * ya,
        }
    }
}

impl WideAmp {
    pub fn zero() -> (r: WideAmp)
        ensures
            r@ == zw_zero(),
    {
        WideAmp { a: 0, b: 0, c: 0, d: 0 }
    }

    /// Exact sum; the caller supplies the range facts from its own invariant.
    pub fn plus(self, other: WideAmp) -> (r: WideAmp)
        requires
            i128::MIN <= self@.a + other@.a <= i128::MAX,
            i128::MIN <= self@.b + other@.b <= i128::MAX,
            i128::MIN <= self@.c + other@.c <= i128::MAX,
            i128::MIN <= self@.d + other@.d <= i128::MAX,
        ensures
            r@ == zw_plus(self@, other@),
    {
        WideAmp { a: self.a + other.a, b: self.b + other.b, c: self.c + other.c, d: self.d + other.d }
    }

    /// Narrow back to a stored amplitude; `None` reports that the exact value
    /// left the representable range, the overflow outcome of the engine.
    pub fn narrow_checked(self) -> (r: Option<Amplitude>)
        ensures
            r is Some <==> amp_in_range(self@),
            r matches Some(z) ==> z@ == self@,
    {
        if self.a >= -(AMP_BOUND as i128) && self.a <= AMP_BOUND as i128
            && self.b >= -(AMP_BOUND as i128) && self.b <= AMP_BOUND as i128
            && self.c >= -(AMP_BOUND as i128) && self.c <= AMP_BOUND as i128
            && self.d >= -(AMP_BOUND as i128) && self.d <= AMP_BOUND as i128 {
            Some(Amplitude { a: self.a as i64, b: self.b as i64, c: self.c as i64, d: self.d as i64 })
        } else {
            None
        }
    }

    /// Narrow a value the caller has already proved representable.
    pub fn narrow_within(self, bound: Ghost<int>) -> (r: Amplitude)
        requires
            zw_bounded(self@, bound@),
            bound@ <= i64::MAX,
        ensures
            r@ == self@,
    {
        Amplitude { a: self.a as i64, b: self.b as i64, c: self.c as i64, d: self.d as i64 }
    }
}

} // verus!
