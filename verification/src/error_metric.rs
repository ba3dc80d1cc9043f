//! The level-dependent geometric error heuristic.
//!
//! The error bound of a tile at latitude `lat` and level `l >= 2` is
//! `4 * (cos(lat) * 2 * pi * 6378137 m) / (256 * 2^(l - 2))`, that is,
//! the circumference of the latitude parallel divided by `2^(l + 4)`.
//! The library evaluates the circumference deterministically in fixed
//! point (a truncated cosine series, clamped to stay positive) and
//! keeps the error as an exact rational, so that its strict decrease
//! across levels is a theorem rather than a rounding accident.

use vstd::arithmetic::mul::lemma_mul_strict_inequality;
use vstd::arithmetic::power2::lemma_pow2_strictly_increases;
use vstd::arithmetic::power2::pow2;
use vstd::bits::lemma_u64_shr_is_div;
use vstd::prelude::*;

verus! {

/// Largest latitude magnitude, in micro-degrees.
pub const LAT_LIMIT: i64 = 90_000_000;

/// Shallowest level the heuristic is defined for.
pub const MIN_LEVEL: u32 = 2;

/// Deepest level the heuristic accepts (the denominator `2^(l + 4)`
/// must stay within 64 bits).
pub const MAX_LEVEL: u32 = 58;

/// The equator's circumference in millimeters: `2 * pi * 6378137 m`.
pub const EQUATOR_MM: u64 = 40_074_155_889;

/// Fixed-point scale of the cosine evaluation.
pub const COS_SCALE: u64 = 1_000_000_000;

/// Nano-radians per micro-degree, times one million.
pub const NANO_RAD_PER_MICRO_DEG_K: u64 = 17_453_293;

pub open spec fn spec_abs(v: int) -> int {
    if v < 0 {
        -v
    } else {
        v
    }
}

/// The cosine of a latitude (micro-degrees), scaled by `COS_SCALE`:
/// a truncated series over the angle in nano-radians, clamped below at
/// one so the heuristic never collapses to zero or turns negative at
/// the poles.
pub open spec fn cos_scaled(lat_micro: int) -> int {
    let x = spec_abs(lat_micro) * (NANO_RAD_PER_MICRO_DEG_K as int) / 1_000_000;
    let q = COS_SCALE as int;
    let x2 = x * x / q;
    let x4 = x2 * x2 / q;
    let x6 = x4 * x2 / q;
    let x8 = x6 * x2 / q;
    let t = q - x2 / 2 + x4 / 24 - x6 / 720 + x8 / 40320;
    if t < 1 {
        1
    } else {
        t
    }
}

/// The circumference, in millimeters, of the parallel at the given
/// latitude under the clamped fixed-point cosine.
pub open spec fn parallel_circumference_mm(lat_micro: int) -> int {
    cos_scaled(lat_micro) * (EQUATOR_MM as int) / (COS_SCALE as int)
}

/// A geometric error as the exact rational
/// `circumference_mm / 2^(level + 4)` millimeters.
#[derive(Clone, Copy, PartialEq, Eq, Structural, Debug)]
pub struct GeometricError {
    pub circumference_mm: u64,
    pub level: u32,
}

impl GeometricError {
    pub open spec fn wf(self) -> bool {
        &&& 1 <= self.circumference_mm <= 60_000_000_000
        &&& MIN_LEVEL <= self.level <= MAX_LEVEL
    }

    /// Strict comparison of the exact rational values, by cross
    /// multiplication.
    pub open spec fn lt(self, other: GeometricError) -> bool {
        self.circumference_mm * pow2((other.level + 4) as nat) < other.circumference_mm * pow2(
            (self.level + 4) as nat,
        )
    }

    /// The error in whole millimeters, rounded down.
    pub fn millimeters(&self) -> (r: u64)
        requires
            self.wf(),
        ensures
            r == self.circumference_mm as int / pow2((self.level + 4) as nat) as int,
    {
        let shift: u64 = (self.level + 4) as u64;
        proof {
            lemma_u64_shr_is_div(self.circumference_mm, shift);
        }
        self.circumference_mm >> shift
    }
}

proof fn lemma_mul_div_bound(a: int, ca: int, b: int, cb: int, d: int)
    requires
        0 <= a <= ca,
        0 <= b <= cb,
        0 < d,
    ensures
        0 <= a * b / d <= ca * cb / d,
{
    assert(a * b <= ca * cb) by (nonlinear_arith)
        requires
            0 <= a <= ca,
            0 <= b <= cb,
    ;
    assert(0 <= a * b) by (nonlinear_arith)
        requires
            0 <= a,
            0 <= b,
    ;
    assert(a * b / d <= ca * cb / d) by (nonlinear_arith)
        requires
            a * b <= ca * cb,
            0 < d,
    ;
    assert(0 <= a * b / d) by (nonlinear_arith)
        requires
            0 <= a * b,
            0 < d,
    ;
}

/// Evaluates the error heuristic at a latitude (micro-degrees) and
/// level: the exact rational `parallel_circumference / 2^(level + 4)`.
pub fn geometric_error(lat_micro: i64, level: u32) -> (r: GeometricError)
    requires
        -LAT_LIMIT <= lat_micro <= LAT_LIMIT,
        MIN_LEVEL <= level <= MAX_LEVEL,
    ensures
        r.level == level,
        r.circumference_mm == parallel_circumference_mm(lat_micro as int),
        r.wf(),
{
    let m: u64 = if lat_micro < 0 {
        (-lat_micro) as u64
    } else {
        lat_micro as u64
    };
    proof {
        lemma_mul_div_bound(m as int, 90_000_000, NANO_RAD_PER_MICRO_DEG_K as int,
            NANO_RAD_PER_MICRO_DEG_K as int, 1_000_000);
        assert(m as int * (NANO_RAD_PER_MICRO_DEG_K as int) <= 90_000_000 * (
        NANO_RAD_PER_MICRO_DEG_K as int)) by (nonlinear_arith)
            requires
                0 <= m <= 90_000_000,
        ;
    }
    let x: u64 = m * NANO_RAD_PER_MICRO_DEG_K / 1_000_000;
    assert(x <= 1_570_796_370);
    proof {
        lemma_mul_div_bound(x as int, 1_570_796_370, x as int, 1_570_796_370, COS_SCALE as int);
    }
    let x2: u64 = ((x as u128 * x as u128) / (COS_SCALE as u128)) as u64;
    assert(x2 <= 2_500_000_000);
    proof {
        lemma_mul_div_bound(x2 as int, 2_500_000_000, x2 as int, 2_500_000_000,
            COS_SCALE as int);
    }
    let x4: u64 = ((x2 as u128 * x2 as u128) / (COS_SCALE as u128)) as u64;
    assert(x4 <= 6_250_000_000);
    proof {
        lemma_mul_div_bound(x4 as int, 6_250_000_000, x2 as int, 2_500_000_000,
            COS_SCALE as int);
    }
    let x6: u64 = ((x4 as u128 * x2 as u128) / (COS_SCALE as u128)) as u64;
    assert(x6 <= 15_625_000_000);
    proof {
        lemma_mul_div_bound(x6 as int, 15_625_000_000, x2 as int, 2_500_000_000,
            COS_SCALE as int);
    }
    let x8: u64 = ((x6 as u128 * x2 as u128) / (COS_SCALE as u128)) as u64;
    assert(x8 <= 39_062_500_000);
    let t: i64 = 1_000_000_000i64 - (x2 / 2) as i64 + (x4 / 24) as i64 - (x6 / 720) as i64 + (x8
        / 40320) as i64;
    let c: u64 = if t < 1 {
        1
    } else {
        t as u64
    };
    assert(c == cos_scaled(lat_micro as int));
    assert(c <= 1_300_000_000);
    proof {
        lemma_mul_div_bound(c as int, 1_300_000_000, EQUATOR_MM as int, EQUATOR_MM as int,
            COS_SCALE as int);
        assert(c as int * (EQUATOR_MM as int) / (COS_SCALE as int) >= c) by (nonlinear_arith)
            requires
                0 < c,
                EQUATOR_MM == 40_074_155_889u64,
                COS_SCALE == 1_000_000_000u64,
        ;
    }
    let circ: u64 = ((c as u128 * EQUATOR_MM as u128) / (COS_SCALE as u128)) as u64;
    GeometricError { circumference_mm: circ, level }
}

/// For a fixed latitude the geometric error is strictly decreasing in
/// the level: a deeper tile always promises a strictly smaller error.
pub proof fn lemma_geometric_error_decreasing(a: GeometricError, b: GeometricError)
    requires
        a.wf(),
        b.wf(),
        a.circumference_mm == b.circumference_mm,
        a.level < b.level,
    ensures
        b.lt(a),
{
    lemma_pow2_strictly_increases((a.level + 4) as nat, (b.level + 4) as nat);
    lemma_mul_strict_inequality(
        pow2((a.level + 4) as nat) as int,
        pow2((b.level + 4) as nat) as int,
        a.circumference_mm as int,
    );
    assert(b.circumference_mm * pow2((a.level + 4) as nat) == pow2((a.level + 4) as nat) as int
        * a.circumference_mm as int) by (nonlinear_arith)
        requires
            a.circumference_mm == b.circumference_mm,
    ;
    assert(a.circumference_mm * pow2((b.level + 4) as nat) == pow2((b.level + 4) as nat) as int
        * a.circumference_mm as int) by (nonlinear_arith);
}

} // verus!
