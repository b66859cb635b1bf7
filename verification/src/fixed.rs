//! Fixed-point scales, the simulation constants, and exact helpers for
//! truncating division (the arithmetic every module shares).

use vstd::prelude::*;

verus! {

/// Cells per grid side: the terrain and water grids are `DIM x DIM`.
pub const DIM: usize = 100;

/// `DIM - 1`: pipes per row or column, and the largest cell coordinate.
pub const DIM_M1: usize = 99;

/// Fixed-point steps per world unit for grid coordinates (and for time:
/// a time step `dt` carries `COORD_SCALE` steps per second).
pub const COORD_SCALE: i64 = 1000;

/// Fixed-point steps per world unit for heights, depths and water volumes.
pub const HEIGHT_SCALE: i64 = 1_000_000;

/// Gravitational acceleration, 9.81, at `COORD_SCALE`.
pub const G: i64 = 9810;

/// Zero-depth threshold: 0.01 world units at `HEIGHT_SCALE`. A cell at or
/// below this depth counts as dry when pipe flows accelerate.
pub const EPS_DEPTH: i64 = 10_000;

/// Upwind-depth cap: 5.0 world units at `HEIGHT_SCALE`. Bounds how much flow
/// a single very deep cell can drive through one pipe.
pub const UPWIND_CAP: i64 = 5_000_000;

/// Average-depth ceiling: 50.0 world units at `HEIGHT_SCALE`. Once the
/// average depth reaches it, externally added water is refused.
pub const MAX_HEIGHT: i64 = 50_000_000;

/// Bound on terrain heights: 50.0 world units at `HEIGHT_SCALE`; every
/// stored terrain height lies strictly inside `(-MAX_TERRAIN, MAX_TERRAIN)`.
pub const MAX_TERRAIN: i64 = 50_000_000;

/// Flow friction: decay rate 0.05 per second, at `COORD_SCALE`.
pub const DECAY_RATE: i64 = 50;

/// Largest accepted time step: 1.0 second at `COORD_SCALE`.
pub const DT_MAX: i64 = 1000;

/// Machine bound on a single pipe flow's magnitude; flows are clamped here
/// so that one tick's arithmetic stays far from `i64` overflow.
pub const FLOW_LIMIT: i64 = 100_000_000_000;

/// Machine bound on a single cell's depth, for the same reason.
pub const DEPTH_LIMIT: i64 = 1_000_000_000_000_000;

/// Depths at or below this bound can always take a full tick's worth of
/// inflow without touching `DEPTH_LIMIT`, so no clamping occurs:
/// `SAFE_DEPTH + 4 * DT_MAX * FLOW_LIMIT <= DEPTH_LIMIT`.
pub const SAFE_DEPTH: i64 = 600_000_000_000_000;

/// Divisor folding the four fixed-point factors of the flow-acceleration
/// product back to flow scale:
/// `HEIGHT_SCALE * COORD_SCALE * HEIGHT_SCALE * COORD_SCALE / COORD_SCALE`.
pub const ACCEL_DIV: i64 = 1_000_000_000_000_000;

/// Division truncating toward zero (the behaviour of `/` on machine
/// integers), for a positive divisor.
pub open spec fn div_tz(a: int, b: int) -> int {
    if a >= 0 {
        a / b
    } else {
        -((-a) / b)
    }
}

/// Clamp `v` into `[lo, hi]`.
pub open spec fn clamp(v: int, lo: int, hi: int) -> int {
    if v < lo {
        lo
    } else if v > hi {
        hi
    } else {
        v
    }
}

/// Truncating division never grows a value's magnitude.
pub proof fn lemma_div_tz_bound(a: int, b: int)
    requires
        b >= 1,
    ensures
        a >= 0 ==> 0 <= div_tz(a, b) <= a,
        a < 0 ==> a <= div_tz(a, b) <= 0,
{
    if a >= 0 {
        vstd::arithmetic::div_mod::lemma_div_pos_is_pos(a, b);
        vstd::arithmetic::div_mod::lemma_div_nonincreasing(a, b);
    } else {
        vstd::arithmetic::div_mod::lemma_div_pos_is_pos(-a, b);
        vstd::arithmetic::div_mod::lemma_div_nonincreasing(-a, b);
    }
}

/// Exact truncating division on `i64` with a positive divisor.
pub fn div_i64(a: i64, b: i64) -> (q: i64)
    requires
        b >= 1,
        a > i64::MIN,
    ensures
        q == div_tz(a as int, b as int),
        a >= 0 ==> 0 <= q <= a,
        a < 0 ==> a <= q <= 0,
{
    proof {
        lemma_div_tz_bound(a as int, b as int);
    }
    if a >= 0 {
        ((a as u64) / (b as u64)) as i64
    } else {
        let n: u64 = (-a) as u64;
        let q: u64 = n / (b as u64);
        -(q as i64)
    }
}

/// Exact truncating division on `i128` with a positive divisor.
pub fn div_i128(a: i128, b: i128) -> (q: i128)
    requires
        b >= 1,
        a > i128::MIN,
    ensures
        q == div_tz(a as int, b as int),
        a >= 0 ==> 0 <= q <= a,
        a < 0 ==> a <= q <= 0,
{
    proof {
        lemma_div_tz_bound(a as int, b as int);
    }
    if a >= 0 {
        ((a as u128) / (b as u128)) as i128
    } else {
        let n: u128 = (-a) as u128;
        let q: u128 = n / (b as u128);
        -(q as i128)
    }
}

/// Clamp an `i128` into an `i64` interval.
pub fn clamp_i128(v: i128, lo: i64, hi: i64) -> (r: i64)
    requires
        lo <= hi,
    ensures
        r == clamp(v as int, lo as int, hi as int),
{
    if v < lo as i128 {
        lo
    } else if v > hi as i128 {
        hi
    } else {
        v as i64
    }
}

} // verus!
