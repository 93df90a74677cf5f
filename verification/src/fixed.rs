//! Fixed-point distances and the integer square root they are computed
//! with.
//!
//! The distance field stores signed distances in units of `1/256` pixel
//! (8 fractional bits). A distance between two pixel coordinates is the
//! floor of `256 * sqrt(dx*dx + dy*dy)`, computed exactly with an integer
//! square root; recomputing it from the recorded target coordinates keeps
//! the error of every entry below one unit, independent of how long the
//! propagation chain was. The value `i64::MAX` serves as `+infinity`, the
//! initial value of every entry before the sweeps reach it.

use vstd::prelude::*;

verus! {

/// One pixel, in fixed-point distance units.
pub const FP_ONE: i64 = 256;

/// The square of the fixed-point scale: multiplying a squared pixel
/// distance by this and taking the integer square root yields the
/// fixed-point distance.
pub const FP_SCALE_SQUARED: u64 = 65536;

/// The distance value that stands for `+infinity`: the distance of a
/// pixel that no boundary has reached (yet). The sign flip turns it into
/// `-DISTANCE_INFINITY` on inside pixels, so an entry of a finished field
/// is infinite exactly when its magnitude equals this constant.
pub const DISTANCE_INFINITY: i64 = i64::MAX;

/// An upper bound for every finite distance the engine can produce:
/// pixel coordinates are below 2^16, so squared pixel distances are below
/// 2^33 and fixed-point distances below 2^25.
pub const MAX_DISTANCE_FP: i64 = 0x200_0000;

/// `r` is the integer square root (rounded down) of `n`.
pub open spec fn is_sqrt_floor(n: int, r: int) -> bool {
    0 <= r && r * r <= n && n < (r + 1) * (r + 1)
}

/// The integer square root, rounded down, as a spec-level value.
pub open spec fn sqrt_floor(n: int) -> int {
    choose|r: int| is_sqrt_floor(n, r)
}

/// The integer square root is unique.
pub proof fn lemma_sqrt_floor_unique(n: int, r1: int, r2: int)
    requires
        is_sqrt_floor(n, r1),
        is_sqrt_floor(n, r2),
    ensures
        r1 == r2,
{
    if r1 < r2 {
        assert((r1 + 1) * (r1 + 1) <= r2 * r2) by (nonlinear_arith)
            requires
                0 <= r1,
                r1 < r2,
        ;
    }
    if r2 < r1 {
        assert((r2 + 1) * (r2 + 1) <= r1 * r1) by (nonlinear_arith)
            requires
                0 <= r2,
                r2 < r1,
        ;
    }
}

/// The integer square root, rounded down, of a 64-bit value.
pub fn isqrt(n: u64) -> (r: u64)
    ensures
        is_sqrt_floor(n as int, r as int),
        r == sqrt_floor(n as int),
{
    let mut lo: u64 = 0;
    let mut hi: u64 = 0x1_0000_0000;
    assert((hi as int) * (hi as int) > n as int) by (nonlinear_arith)
        requires
            hi == 0x1_0000_0000u64,
            n <= u64::MAX,
    ;
    while hi - lo > 1
        invariant
            0 <= lo < hi <= 0x1_0000_0000,
            (lo as int) * (lo as int) <= n as int,
            (hi as int) * (hi as int) > n as int,
        decreases hi - lo,
    {
        let mid: u64 = lo + (hi - lo) / 2;
        assert((mid as int) * (mid as int) <= 0x1_0000_0000int * 0x1_0000_0000int)
            by (nonlinear_arith)
            requires
                mid <= 0x1_0000_0000u64,
        ;
        let square: u128 = (mid as u128) * (mid as u128);
        if square <= n as u128 {
            lo = mid;
        } else {
            hi = mid;
        }
    }
    proof {
        assert(is_sqrt_floor(n as int, lo as int));
        lemma_sqrt_floor_unique(n as int, lo as int, sqrt_floor(n as int));
    }
    lo
}

/// Every nonnegative integer has an integer square root.
pub proof fn lemma_sqrt_floor_exists(n: int)
    requires
        n >= 0,
    ensures
        is_sqrt_floor(n, sqrt_floor(n)),
    decreases n,
{
    if n == 0 {
        assert(is_sqrt_floor(0, 0)) by (nonlinear_arith);
    } else {
        lemma_sqrt_floor_exists(n - 1);
        let r = sqrt_floor(n - 1);
        if n < (r + 1) * (r + 1) {
            assert(is_sqrt_floor(n, r));
        } else {
            assert(n == (r + 1) * (r + 1));
            assert((r + 2) * (r + 2) > (r + 1) * (r + 1)) by (nonlinear_arith)
                requires
                    r >= 0,
            ;
            assert(is_sqrt_floor(n, r + 1));
        }
    }
}

/// The fixed-point distance between two pixels of the grid is
/// nonnegative, below `MAX_DISTANCE_FP`, and zero exactly between a
/// pixel and itself.
pub proof fn lemma_dist_fp_range(x: int, y: int, tx: int, ty: int)
    requires
        0 <= x < 0x10000,
        0 <= y < 0x10000,
        0 <= tx < 0x10000,
        0 <= ty < 0x10000,
    ensures
        0 <= dist_fp(x, y, tx, ty) < MAX_DISTANCE_FP as int,
        (dist_fp(x, y, tx, ty) == 0) <==> (x == tx && y == ty),
{
    let sq = sq_dist(x, y, tx, ty);
    assert(0 <= sq <= 2 * 0xFFFF * 0xFFFF && (sq == 0 <==> (x == tx && y == ty)) && (x != tx || y
        != ty ==> sq >= 1)) by (nonlinear_arith)
        requires
            0 <= x < 0x10000,
            0 <= y < 0x10000,
            0 <= tx < 0x10000,
            0 <= ty < 0x10000,
            sq == sq_dist(x, y, tx, ty),
    ;
    let scaled = sq * 65536;
    assert(0 <= scaled <= 2 * 0xFFFF * 0xFFFF * 65536 && (sq >= 1 ==> scaled >= 65536))
        by (nonlinear_arith)
        requires
            0 <= sq <= 2 * 0xFFFF * 0xFFFF,
            scaled == sq * 65536,
    ;
    lemma_sqrt_floor_exists(scaled);
    let r = sqrt_floor(scaled);
    if r >= MAX_DISTANCE_FP as int {
        assert(r * r >= 0x200_0000int * 0x200_0000int) by (nonlinear_arith)
            requires
                r >= 0x200_0000,
        ;
        assert(false);
    }
    if sq == 0 {
        assert(is_sqrt_floor(0, 0)) by (nonlinear_arith);
        lemma_sqrt_floor_unique(0, r, 0);
    } else {
        assert(r >= 1) by {
            if r == 0 {
                assert((r + 1) * (r + 1) == 1) by (nonlinear_arith)
                    requires
                        r == 0,
                ;
            }
        }
    }
}

/// The squared Euclidean distance between two pixel coordinates.
pub open spec fn sq_dist(x: int, y: int, tx: int, ty: int) -> int {
    (x - tx) * (x - tx) + (y - ty) * (y - ty)
}

/// The fixed-point distance between two pixel coordinates: the floor of
/// `256 * sqrt(sq_dist)`.
pub open spec fn dist_fp(x: int, y: int, tx: int, ty: int) -> int {
    sqrt_floor(sq_dist(x, y, tx, ty) * (FP_SCALE_SQUARED as int))
}

/// The absolute difference of two coordinates, as a 64-bit value.
fn abs_diff(a: u16, b: u16) -> (d: u64)
    ensures
        d == if a >= b {
            (a - b) as int
        } else {
            (b - a) as int
        },
        d <= 0xFFFF,
{
    if a >= b {
        (a - b) as u64
    } else {
        (b - a) as u64
    }
}

/// The fixed-point distance between the pixels (x, y) and (tx, ty).
///
/// This is what the engine writes back after adopting a target: the exact
/// (floor-rounded) Euclidean distance to the adopted boundary pixel.
pub fn distance(x: u16, y: u16, target_x: u16, target_y: u16) -> (d: i64)
    ensures
        d == dist_fp(x as int, y as int, target_x as int, target_y as int),
        0 <= d < MAX_DISTANCE_FP,
        (d == 0) <==> (x == target_x && y == target_y),
{
    let dx = abs_diff(x, target_x);
    let dy = abs_diff(y, target_y);
    assert(dx * dx <= 0xFFFE0001u64 && dy * dy <= 0xFFFE0001u64 && (dx >= 1 ==> dx * dx >= 1) && (
    dy >= 1 ==> dy * dy >= 1)) by (nonlinear_arith)
        requires
            dx <= 0xFFFF,
            dy <= 0xFFFF,
    ;
    let sq: u64 = dx * dx + dy * dy;
    assert(sq == sq_dist(x as int, y as int, target_x as int, target_y as int)) by (nonlinear_arith)
        requires
            dx == (if x >= target_x {
                x - target_x
            } else {
                target_x - x
            }),
            dy == (if y >= target_y {
                y - target_y
            } else {
                target_y - y
            }),
            sq == dx * dx + dy * dy,
    ;
    assert(sq * 65536 <= 0x1FFFC0002u64 * 65536) by (nonlinear_arith)
        requires
            sq <= 0x1FFFC0002u64,
    ;
    let scaled: u64 = sq * FP_SCALE_SQUARED;
    let r = isqrt(scaled);
    proof {
        if r >= 0x200_0000 {
            assert((r as int) * (r as int) >= 0x200_0000int * 0x200_0000int) by (nonlinear_arith)
                requires
                    r >= 0x200_0000u64,
            ;
            assert(false);
        }
        if sq == 0 {
            assert(is_sqrt_floor(0, 0)) by (nonlinear_arith);
            lemma_sqrt_floor_unique(0, r as int, 0);
            assert(x == target_x && y == target_y);
        } else {
            assert(scaled >= 65536);
            assert(r >= 1) by {
                if r == 0 {
                    assert((r + 1) * (r + 1) == 1) by (nonlinear_arith)
                        requires
                            r == 0u64,
                    ;
                }
            }
            if x == target_x && y == target_y {
                assert(dx == 0 && dy == 0);
                assert(sq == 0) by (nonlinear_arith)
                    requires
                        dx == 0u64,
                        dy == 0u64,
                        sq == dx * dx + dy * dy,
                ;
            }
            assert(!(x == target_x && y == target_y));
        }
    }
    r as i64
}

} // verus!
