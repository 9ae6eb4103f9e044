//! Fixed-point numeric kernel: integer square roots, floor division and
//! exact rational interpolation weights shared by the geometry modules.

use vstd::prelude::*;

verus! {

use vstd::arithmetic::div_mod::{
    lemma_fundamental_div_mod, lemma_fundamental_div_mod_converse, lemma_div_is_ordered,
    lemma_div_multiples_vanish, lemma_mod_division_less_than_divisor,
};

/// Largest coordinate magnitude accepted by the distance queries; keeps every
/// intermediate product of the segment-distance computation inside `i128`.
pub const COORD_MAX: i64 = 524288;

/// Largest scalar-value magnitude accepted by the interpolation queries; keeps
/// differences of two values inside `i64`.
pub const VAL_MAX: i64 = 0x2000_0000_0000_0000;

/// Strict upper bound on the distance between two points whose coordinates
/// are bounded by `COORD_MAX`.
pub const DIST_MAX: i64 = 2_000_000;

/// Floor of the real square root of `n`.
pub open spec fn sqrt_floor(n: nat) -> nat
    decreases n,
{
    if n == 0 {
        0
    } else {
        let r = sqrt_floor((n - 1) as nat);
        if (r + 1) * (r + 1) == n {
            r + 1
        } else {
            r
        }
    }
}

/// `sqrt_floor(n)` is the unique integer whose square brackets `n`.
pub proof fn lemma_sqrt_floor_bounds(n: nat)
    ensures
        sqrt_floor(n) * sqrt_floor(n) <= n,
        n < (sqrt_floor(n) + 1) * (sqrt_floor(n) + 1),
    decreases n,
{
    if n == 0 {
        assert(sqrt_floor(n) == 0);
        assert(sqrt_floor(n) * sqrt_floor(n) <= n && n < (sqrt_floor(n) + 1) * (sqrt_floor(n)
            + 1)) by (nonlinear_arith)
            requires
                n == 0,
                sqrt_floor(n) == 0,
        ;
    } else {
        let r = sqrt_floor((n - 1) as nat);
        lemma_sqrt_floor_bounds((n - 1) as nat);
        if (r + 1) * (r + 1) == n {
            assert(sqrt_floor(n) == r + 1);
            assert(sqrt_floor(n) * sqrt_floor(n) <= n && n < (sqrt_floor(n) + 1) * (sqrt_floor(n)
                + 1)) by (nonlinear_arith)
                requires
                    sqrt_floor(n) == r + 1,
                    n == (r + 1) * (r + 1),
            ;
        } else {
            assert(sqrt_floor(n) == r);
            assert(sqrt_floor(n) * sqrt_floor(n) <= n && n < (sqrt_floor(n) + 1) * (sqrt_floor(n)
                + 1)) by (nonlinear_arith)
                requires
                    sqrt_floor(n) == r,
                    r * r <= n - 1,
                    n - 1 < (r + 1) * (r + 1),
            ;
        }
    }
}

pub proof fn lemma_sqrt_floor_unique(n: nat, r: nat)
    requires
        r * r <= n,
        n < (r + 1) * (r + 1),
    ensures
        r == sqrt_floor(n),
{
    lemma_sqrt_floor_bounds(n);
    let s = sqrt_floor(n);
    if r < s {
        assert((r + 1) * (r + 1) <= s * s) by (nonlinear_arith)
            requires
                r + 1 <= s,
        ;
    }
    if s < r {
        assert((s + 1) * (s + 1) <= r * r) by (nonlinear_arith)
            requires
                s + 1 <= r,
        ;
    }
}

/// Floor of the real square root, computed by bisection.
pub fn isqrt(n: u64) -> (r: u64)
    ensures
        r == sqrt_floor(n as nat),
{
    let mut lo: u64 = 0;
    let mut hi: u64 = 0x1_0000_0000;
    assert((n as int) < 0x1_0000_0000int * 0x1_0000_0000int);
    while lo + 1 < hi
        invariant
            lo < hi,
            hi <= 0x1_0000_0000,
            (lo as int) * (lo as int) <= n as int,
            (n as int) < (hi as int) * (hi as int),
        decreases hi - lo,
    {
        let mid = lo + (hi - lo) / 2;
        assert(lo < mid && mid < hi);
        assert((mid as int) * (mid as int) <= 0xffff_ffff_ffff_ffff) by (nonlinear_arith)
            requires
                mid < 0x1_0000_0000,
        ;
        if mid * mid <= n {
            lo = mid;
        } else {
            hi = mid;
        }
    }
    proof {
        lemma_sqrt_floor_unique(n as nat, lo as nat);
    }
    lo
}

/// Floor division of `a` by a positive `b` (rounds towards negative
/// infinity, matching `/` of the specification language).
pub fn div_floor_i128(a: i128, b: i128) -> (r: i128)
    requires
        0 < b,
        i128::MIN < a,
    ensures
        r == (a as int) / (b as int),
{
    if a >= 0 {
        let q = (a as u128) / (b as u128);
        proof {
            lemma_div_is_ordered(a as int, u128::MAX as int, b as int);
        }
        q as i128
    } else {
        let m = (-a) as u128;
        let bu = b as u128;
        let q = m / bu;
        let rem = m % bu;
        proof {
            lemma_fundamental_div_mod(m as int, bu as int);
            lemma_mod_division_less_than_divisor(m as int, bu as int);
            assert(m as int == -(a as int));
            assert(q as int == (m as int) / (bu as int));
            assert(rem as int == (m as int) % (bu as int));
            assert(m as int == (bu as int) * (q as int) + (rem as int));
        }
        if rem == 0 {
            proof {
                assert(a as int == (-(q as int)) * (b as int) + 0) by (nonlinear_arith)
                    requires
                        m as int == (bu as int) * (q as int) + (rem as int),
                        rem as int == 0,
                        a as int == -(m as int),
                        bu as int == b as int,
                ;
                lemma_fundamental_div_mod_converse(a as int, b as int, -(q as int), 0);
            }
            -(q as i128)
        } else {
            proof {
                assert(a as int == (-(q as int) - 1) * (b as int) + ((b as int) - (rem as int)))
                    by (nonlinear_arith)
                    requires
                        m as int == (bu as int) * (q as int) + (rem as int),
                        a as int == -(m as int),
                        bu as int == b as int,
                ;
                lemma_fundamental_div_mod_converse(
                    a as int,
                    b as int,
                    -(q as int) - 1,
                    (b as int) - (rem as int),
                );
            }
            -(q as i128) - 1
        }
    }
}

/// An exact rational interpolation parameter `num / den`.
#[derive(Clone, Copy, PartialEq, Eq, Structural, Debug)]
pub struct Weight {
    pub num: i64,
    pub den: i64,
}

impl Weight {
    /// A well-formed weight lies in the closed unit interval.
    pub open spec fn wf(self) -> bool {
        0 < self.den && 0 <= self.num && self.num <= self.den
    }

    /// The midpoint weight `1/2`.
    pub fn half() -> (r: Weight)
        ensures
            r == (Weight { num: 1, den: 2 }),
            r.wf(),
    {
        Weight { num: 1, den: 2 }
    }
}

/// The interpolation value `a + (b - a) * num / den`, rounded down.
pub open spec fn mix_int(a: int, b: int, num: int, den: int) -> int {
    a + ((b - a) * num) / den
}

/// Exact fixed-point linear interpolation between two scalars; the result
/// always lies between the operands.
pub fn mix_i64(a: i64, b: i64, t: Weight) -> (r: i64)
    requires
        t.wf(),
    ensures
        r == mix_int(a as int, b as int, t.num as int, t.den as int),
        a <= b ==> a <= r <= b,
        b <= a ==> b <= r <= a,
{
    let d: i128 = (b as i128) - (a as i128);
    assert((d as int) * (t.num as int) < i128::MAX && i128::MIN < (d as int) * (t.num as int))
        by (nonlinear_arith)
        requires
            -0x1_0000_0000_0000_0000int <= d as int <= 0x1_0000_0000_0000_0000int,
            0 <= t.num as int <= 0x7fff_ffff_ffff_ffffint,
    ;
    let p: i128 = d * (t.num as i128);
    let q: i128 = div_floor_i128(p, t.den as i128);
    proof {
        let di = d as int;
        let ni = t.num as int;
        let de = t.den as int;
        lemma_div_multiples_vanish(di, de);
        assert(di * de == de * di) by (nonlinear_arith);
        assert((di * de) / de == di);
        if di >= 0 {
            assert(0 <= di * ni <= di * de) by (nonlinear_arith)
                requires
                    0 <= di,
                    0 <= ni <= de,
            ;
            lemma_div_is_ordered(0, di * ni, de);
            lemma_div_is_ordered(di * ni, di * de, de);
        } else {
            assert(di * de <= di * ni <= 0) by (nonlinear_arith)
                requires
                    di < 0,
                    0 <= ni <= de,
            ;
            lemma_div_is_ordered(di * ni, 0, de);
            lemma_div_is_ordered(di * de, di * ni, de);
        }
        assert(0int / de == 0);
    }
    let r128: i128 = (a as i128) + q;
    r128 as i64
}

/// Linear interpolation over a payload type, with an exact rational weight.
pub trait Mix: Sized {
    /// The mathematical value of `mix`.
    spec fn mix_spec(self, other: Self, t: Weight) -> Self;

    /// Interpolates between `self` (at `t = 0`) and `other` (at `t = 1`).
    fn mix(self, other: Self, t: Weight) -> (r: Self)
        requires
            t.wf(),
        ensures
            r == self.mix_spec(other, t);
}

impl Mix for i64 {
    open spec fn mix_spec(self, other: i64, t: Weight) -> i64 {
        mix_int(self as int, other as int, t.num as int, t.den as int) as i64
    }

    fn mix(self, other: i64, t: Weight) -> (r: i64) {
        mix_i64(self, other, t)
    }
}

/// Recovers the interpolation weight at which a value sits between two
/// bounds; tolerates `lo > hi` by reversing the interval.
pub trait InverseMix: Sized {
    /// When the query is meaningful (the bounds differ and the values are
    /// small enough for exact arithmetic).
    spec fn inverse_mix_req(self, lo: Self, hi: Self) -> bool;

    /// The mathematical value of `inverse_mix`.
    spec fn inverse_mix_spec(self, lo: Self, hi: Self) -> Weight;

    /// The weight `t` with `mix(lo, hi, t) = self`, as an exact rational.
    fn inverse_mix(self, lo: Self, hi: Self) -> (r: Weight)
        requires
            self.inverse_mix_req(lo, hi),
        ensures
            r == self.inverse_mix_spec(lo, hi);
}

impl InverseMix for i64 {
    open spec fn inverse_mix_req(self, lo: i64, hi: i64) -> bool {
        lo != hi && -VAL_MAX <= self <= VAL_MAX && -VAL_MAX <= lo <= VAL_MAX && -VAL_MAX <= hi
            <= VAL_MAX
    }

    open spec fn inverse_mix_spec(self, lo: i64, hi: i64) -> Weight {
        if lo <= hi {
            Weight { num: (self - lo) as i64, den: (hi - lo) as i64 }
        } else {
            Weight { num: (lo - self) as i64, den: (lo - hi) as i64 }
        }
    }

    fn inverse_mix(self, lo: i64, hi: i64) -> (r: Weight) {
        if lo <= hi {
            Weight { num: self - lo, den: hi - lo }
        } else {
            Weight { num: lo - self, den: lo - hi }
        }
    }
}

} // verus!
