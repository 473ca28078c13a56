use crate::scalar::Scalar;
use vstd::prelude::*;

verus! {

/// How many raw units make one whole.
pub const SCALE: u64 = 4294967296;

/// A signed fixed-point number with 32 fractional bits: `raw / 2^32`.
///
/// Arithmetic saturates at the ends of the range and rounds toward zero, so
/// every operation is total and gives the same result on every machine.
#[derive(Clone, Copy, Debug, PartialEq, Eq, Structural)]
pub struct Fixed {
    pub raw: i64,
}

/// The nearest value of the raw range to `v`.
pub open spec fn clamp(v: int) -> i64 {
    if v > i64::MAX {
        i64::MAX
    } else if v < i64::MIN {
        i64::MIN
    } else {
        v as i64
    }
}

/// The distance of `v` from zero.
pub open spec fn magnitude(v: int) -> int {
    if v < 0 {
        -v
    } else {
        v
    }
}

/// `q` with the given sign.
pub open spec fn signed(q: int, negative: bool) -> int {
    if negative {
        -q
    } else {
        q
    }
}

/// Whether `r` is the whole part of the square root of `n`.
pub open spec fn is_floor_sqrt(n: int, r: int) -> bool {
    0 <= r && r * r <= n < (r + 1) * (r + 1)
}

/// The whole part of the square root of `n`, for `n >= 0`.
pub open spec fn floor_sqrt(n: int) -> int {
    choose|r: int| is_floor_sqrt(n, r)
}

/// Only one number is the whole part of the square root of `n`.
pub proof fn lemma_floor_sqrt_unique(n: int, r: int)
    requires
        is_floor_sqrt(n, r),
    ensures
        floor_sqrt(n) == r,
{
    let s = floor_sqrt(n);
    assert(is_floor_sqrt(n, s));
    if s < r {
        assert((s + 1) * (s + 1) <= r * r) by (nonlinear_arith)
            requires
                0 <= s,
                s + 1 <= r,
        ;
    }
    if r < s {
        assert((r + 1) * (r + 1) <= s * s) by (nonlinear_arith)
            requires
                0 <= r,
                r + 1 <= s,
        ;
    }
}

/// Every number that is not negative has a whole part of its square root.
pub proof fn lemma_floor_sqrt_exists(n: int)
    requires
        n >= 0,
    ensures
        is_floor_sqrt(n, floor_sqrt(n)),
    decreases n,
{
    if n == 0 {
        assert(is_floor_sqrt(0, 0));
    } else {
        lemma_floor_sqrt_exists(n - 1);
        let r = floor_sqrt(n - 1);
        if (r + 1) * (r + 1) <= n {
            assert((r + 2) * (r + 2) > (r + 1) * (r + 1)) by (nonlinear_arith)
                requires
                    r >= 0,
            ;
            assert(is_floor_sqrt(n, r + 1));
        } else {
            assert(is_floor_sqrt(n, r));
        }
    }
}

/// No square root of a fixed-point number is negative.
pub proof fn lemma_sqrt_is_not_negative(value: Fixed)
    ensures
        value.spec_sqrt().raw >= 0,
{
    if value.raw > 0 {
        let n = value.raw * SCALE;
        assert(n >= 0) by (nonlinear_arith)
            requires
                n == value.raw * SCALE,
                value.raw > 0,
                SCALE == 4294967296,
        ;
        lemma_floor_sqrt_exists(n);
        let r = floor_sqrt(n);
        assert(r < 0x1_0000_0000_0000) by (nonlinear_arith)
            requires
                0 <= r,
                r * r <= n,
                n == value.raw * SCALE,
                value.raw <= 0x7fff_ffff_ffff_ffff,
                SCALE == 4294967296,
        ;
    }
}

/// The distance of `v` from zero.
fn magnitude_of(v: i64) -> (m: u128)
    ensures
        m == magnitude(v as int),
        m <= 0x8000_0000_0000_0000,
{
    if v < 0 {
        let wide: i128 = v as i128;
        (-wide) as u128
    } else {
        v as u128
    }
}

/// The raw value nearest to `q` taken with the given sign.
fn saturate(q: u128, negative: bool) -> (r: i64)
    ensures
        r == clamp(signed(q as int, negative)),
{
    if negative {
        if q >= 0x8000_0000_0000_0000 {
            i64::MIN
        } else {
            let small: i64 = q as i64;
            -small
        }
    } else {
        if q > 0x7fff_ffff_ffff_ffff {
            i64::MAX
        } else {
            q as i64
        }
    }
}

/// The whole part of the square root of `n`, found by halving the range in
/// which it lies.
fn whole_sqrt(n: u128) -> (r: u128)
    requires
        n < 0x1_0000_0000_0000_0000_0000_0000,
    ensures
        r == floor_sqrt(n as int),
        r < 0x1_0000_0000_0000,
{
    let mut lo: u128 = 0;
    let mut hi: u128 = 0x1_0000_0000_0000;
    assert(0x1_0000_0000_0000u128 * 0x1_0000_0000_0000u128 == 0x1_0000_0000_0000_0000_0000_0000u128)
        by (nonlinear_arith);
    while hi - lo > 1
        invariant
            lo < hi <= 0x1_0000_0000_0000,
            lo * lo <= n < hi * hi,
        decreases hi - lo,
    {
        let mid: u128 = lo + (hi - lo) / 2;
        assert(mid * mid <= 0x1_0000_0000_0000 * 0x1_0000_0000_0000) by (nonlinear_arith)
            requires
                0 <= mid <= 0x1_0000_0000_0000,
        ;
        if mid * mid <= n {
            lo = mid;
        } else {
            hi = mid;
        }
    }
    proof {
        lemma_floor_sqrt_unique(n as int, lo as int);
    }
    lo
}

impl Scalar for Fixed {
    /// Fixed-point numbers are ordered as their raw values are.
    open spec fn rank(self) -> i64 {
        self.raw
    }

    /// `n` wholes, or the largest value where `n` is beyond the range.
    open spec fn spec_from_usize(n: usize) -> Self {
        Fixed { raw: clamp(n * SCALE) }
    }

    /// The exact sum, or the end of the range that it lies beyond.
    open spec fn spec_plus(self, rhs: Self) -> Self {
        Fixed { raw: clamp(self.raw + rhs.raw) }
    }

    /// The exact difference, or the end of the range that it lies beyond.
    open spec fn spec_minus(self, rhs: Self) -> Self {
        Fixed { raw: clamp(self.raw - rhs.raw) }
    }

    /// The product rounded toward zero to a whole number of raw units, or the
    /// end of the range that it lies beyond.
    open spec fn spec_times(self, rhs: Self) -> Self {
        Fixed {
            raw: clamp(
                signed(
                    magnitude(self.raw as int) * magnitude(rhs.raw as int) / (SCALE as int),
                    (self.raw < 0) != (rhs.raw < 0),
                ),
            ),
        }
    }

    /// The quotient rounded toward zero to a whole number of raw units, or
    /// the end of the range that it lies beyond. Divided by zero, a positive
    /// value gives the largest value, a negative one the smallest, and zero
    /// gives zero.
    open spec fn spec_over(self, rhs: Self) -> Self {
        if rhs.raw == 0 {
            Fixed {
                raw: if self.raw > 0 {
                    i64::MAX
                } else if self.raw < 0 {
                    i64::MIN
                } else {
                    0
                },
            }
        } else {
            Fixed {
                raw: clamp(
                    signed(
                        magnitude(self.raw as int) * SCALE / magnitude(rhs.raw as int),
                        (self.raw < 0) != (rhs.raw < 0),
                    ),
                ),
            }
        }
    }

    /// The square root rounded down to a whole number of raw units; zero for
    /// a negative value.
    open spec fn spec_sqrt(self) -> Self {
        if self.raw <= 0 {
            Fixed { raw: 0 }
        } else {
            Fixed { raw: floor_sqrt(self.raw * SCALE) as i64 }
        }
    }

    /// The value without its sign; the largest value for the smallest.
    open spec fn spec_abs(self) -> Self {
        Fixed { raw: clamp(magnitude(self.raw as int)) }
    }

    proof fn lemma_gap_symmetric(a: Self, b: Self) {
    }

    fn from_usize(n: usize) -> (r: Self) {
        let wide: u128 = n as u128;
        let scaled: u128 = wide * (SCALE as u128);
        Fixed { raw: saturate(scaled, false) }
    }

    fn plus(self, rhs: Self) -> (r: Self) {
        let wide: i128 = self.raw as i128 + rhs.raw as i128;
        Fixed { raw: narrow(wide) }
    }

    fn minus(self, rhs: Self) -> (r: Self) {
        let wide: i128 = self.raw as i128 - rhs.raw as i128;
        Fixed { raw: narrow(wide) }
    }

    fn times(self, rhs: Self) -> (r: Self) {
        let a: u128 = magnitude_of(self.raw);
        let b: u128 = magnitude_of(rhs.raw);
        assert(a * b <= 0x8000_0000_0000_0000 * 0x8000_0000_0000_0000) by (nonlinear_arith)
            requires
                0 <= a <= 0x8000_0000_0000_0000,
                0 <= b <= 0x8000_0000_0000_0000,
        ;
        let product: u128 = a * b;
        let q: u128 = product / (SCALE as u128);
        Fixed { raw: saturate(q, (self.raw < 0) != (rhs.raw < 0)) }
    }

    fn over(self, rhs: Self) -> (r: Self) {
        if rhs.raw == 0 {
            if self.raw > 0 {
                Fixed { raw: i64::MAX }
            } else if self.raw < 0 {
                Fixed { raw: i64::MIN }
            } else {
                Fixed { raw: 0 }
            }
        } else {
            let a: u128 = magnitude_of(self.raw);
            let b: u128 = magnitude_of(rhs.raw);
            assert(a * SCALE <= 0x8000_0000_0000_0000 * 4294967296) by (nonlinear_arith)
                requires
                    0 <= a <= 0x8000_0000_0000_0000,
                    SCALE == 4294967296,
            ;
            let scaled: u128 = a * (SCALE as u128);
            let q: u128 = scaled / b;
            Fixed { raw: saturate(q, (self.raw < 0) != (rhs.raw < 0)) }
        }
    }

    fn sqrt(self) -> (r: Self) {
        if self.raw <= 0 {
            Fixed { raw: 0 }
        } else {
            let scaled: u128 = (self.raw as u128) * (SCALE as u128);
            let root: u128 = whole_sqrt(scaled);
            Fixed { raw: root as i64 }
        }
    }

    fn abs(self) -> (r: Self) {
        Fixed { raw: saturate(magnitude_of(self.raw), false) }
    }

    fn le(self, rhs: Self) -> (b: bool) {
        self.raw <= rhs.raw
    }
}

/// The raw value nearest to `wide`.
fn narrow(wide: i128) -> (r: i64)
    ensures
        r == clamp(wide as int),
{
    if wide > 0x7fff_ffff_ffff_ffff {
        i64::MAX
    } else if wide < -0x8000_0000_0000_0000 {
        i64::MIN
    } else {
        wide as i64
    }
}

} // verus!
