//! Grid coordinates and the length of the straight segment between two of them.
//!
//! A coordinate is a pair of signed 32-bit grid steps (for geographic data,
//! one step is 10^-7 degree). Lengths are whole numbers of `1 / 2^31` of a
//! grid step, rounded down, so that sums of lengths are exact integers.

use vstd::prelude::*;

verus! {

/// The factor by which a squared grid distance is multiplied before its root
/// is taken: `2^62`, which puts 31 fractional bits into every length.
pub const LENGTH_SCALE: u128 = 0x4000_0000_0000_0000;

/// A position on the grid: latitude and longitude in grid steps.
#[derive(Clone, Copy, Debug, PartialEq, Eq, Structural)]
pub struct LatLon {
    pub lat: i32,
    pub lon: i32,
}

/// `r` is the integer square root of `n`: the largest number whose square
/// does not exceed `n`.
pub open spec fn is_floor_sqrt(n: nat, r: nat) -> bool {
    r * r <= n < (r + 1) * (r + 1)
}

/// The integer square root of `n`.
pub open spec fn floor_sqrt(n: nat) -> nat {
    choose|r: nat| is_floor_sqrt(n, r)
}

/// The squared Euclidean distance between two positions, in squared grid steps.
pub open spec fn squared_distance(a: LatLon, b: LatLon) -> nat {
    ((a.lat - b.lat) * (a.lat - b.lat) + (a.lon - b.lon) * (a.lon - b.lon)) as nat
}

/// The Euclidean distance between two positions in units of `1 / 2^31` grid
/// step, rounded down.
pub open spec fn segment_length(a: LatLon, b: LatLon) -> nat {
    floor_sqrt(squared_distance(a, b) * (LENGTH_SCALE as nat))
}

proof fn lemma_square_monotonic(a: nat, b: nat)
    by (nonlinear_arith)
    requires
        a <= b,
    ensures
        a * a <= b * b,
{
}

/// Every number has an integer square root.
pub proof fn lemma_floor_sqrt_exists(n: nat)
    ensures
        exists|r: nat| is_floor_sqrt(n, r),
    decreases n,
{
    if n == 0 {
        assert(is_floor_sqrt(0, 0)) by (nonlinear_arith);
    } else {
        let m = (n - 1) as nat;
        lemma_floor_sqrt_exists(m);
        let r = choose|r: nat| is_floor_sqrt(m, r);
        if (r + 1) * (r + 1) <= n {
            assert((r + 2) * (r + 2) > (r + 1) * (r + 1)) by (nonlinear_arith);
            assert(is_floor_sqrt(n, r + 1));
        } else {
            assert(is_floor_sqrt(n, r));
        }
    }
}

/// The integer square root is unique.
pub proof fn lemma_floor_sqrt_unique(n: nat, a: nat, b: nat)
    requires
        is_floor_sqrt(n, a),
        is_floor_sqrt(n, b),
    ensures
        a == b,
{
    if a < b {
        lemma_square_monotonic(a + 1, b);
    } else if b < a {
        lemma_square_monotonic(b + 1, a);
    }
}

/// `floor_sqrt(n)` is the one number that `is_floor_sqrt` accepts for `n`.
pub proof fn lemma_floor_sqrt_is(n: nat, r: nat)
    requires
        is_floor_sqrt(n, r),
    ensures
        floor_sqrt(n) == r,
{
    lemma_floor_sqrt_unique(n, r, floor_sqrt(n));
}

/// Computes the integer square root of `n` by bisection.
pub fn isqrt(n: u128) -> (r: u64)
    ensures
        r as nat == floor_sqrt(n as nat),
        is_floor_sqrt(n as nat, r as nat),
{
    let mut lo: u128 = 0;
    let mut hi: u128 = 0x1_0000_0000_0000_0000;
    assert(0x1_0000_0000_0000_0000int * 0x1_0000_0000_0000_0000int > u128::MAX)
        by (nonlinear_arith);
    while hi - lo > 1
        invariant
            lo < hi <= 0x1_0000_0000_0000_0000,
            lo * lo <= n < hi * hi,
        decreases hi - lo,
    {
        let mid: u128 = lo + (hi - lo) / 2;
        assert(mid * mid <= 0xffff_ffff_ffff_ffff * 0xffff_ffff_ffff_ffff) by (nonlinear_arith)
            requires
                0 <= mid <= 0xffff_ffff_ffff_ffff,
        ;
        assert(0xffff_ffff_ffff_ffffint * 0xffff_ffff_ffff_ffffint <= u128::MAX)
            by (nonlinear_arith);
        if mid * mid <= n {
            lo = mid;
        } else {
            hi = mid;
        }
    }
    proof {
        assert(is_floor_sqrt(n as nat, lo as nat));
        lemma_floor_sqrt_is(n as nat, lo as nat);
    }
    lo as u64
}

/// The distance between two grid steps on one axis.
fn span(x: i32, y: i32) -> (d: u64)
    ensures
        d == x - y || d == y - x,
        0 <= d <= 0xffff_ffff,
{
    if x >= y {
        (x as i64 - y as i64) as u64
    } else {
        (y as i64 - x as i64) as u64
    }
}

/// Computes the length of the straight segment between two positions.
pub fn segment_length_of(a: LatLon, b: LatLon) -> (len: u64)
    ensures
        len as nat == segment_length(a, b),
{
    let dlat: u64 = span(a.lat, b.lat);
    let dlon: u64 = span(a.lon, b.lon);
    assert(dlat * dlat == (a.lat - b.lat) * (a.lat - b.lat)) by (nonlinear_arith)
        requires
            dlat == a.lat - b.lat || dlat == b.lat - a.lat,
    ;
    assert(dlon * dlon == (a.lon - b.lon) * (a.lon - b.lon)) by (nonlinear_arith)
        requires
            dlon == a.lon - b.lon || dlon == b.lon - a.lon,
    ;
    assert(dlat * dlat <= 0xffff_ffff * 0xffff_ffff) by (nonlinear_arith)
        requires
            0 <= dlat <= 0xffff_ffff,
    ;
    assert(dlon * dlon <= 0xffff_ffff * 0xffff_ffff) by (nonlinear_arith)
        requires
            0 <= dlon <= 0xffff_ffff,
    ;
    let squared: u128 = (dlat * dlat) as u128 + (dlon * dlon) as u128;
    assert(squared == squared_distance(a, b));
    assert(squared * LENGTH_SCALE <= u128::MAX) by (nonlinear_arith)
        requires
            0 <= squared <= 2 * (0xffff_ffff * 0xffff_ffff),
            LENGTH_SCALE == 0x4000_0000_0000_0000,
    ;
    isqrt(squared * LENGTH_SCALE)
}

} // verus!
