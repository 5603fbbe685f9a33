//! Fixed-point 3-D geometry: positions, squared distances, integer square
//! roots and linear interpolation along an edge.
//!
//! Every world length in the simulation is an integer number of fixed-point
//! units.  A coordinate is bounded by `COORD_LIMIT`, which keeps every
//! squared distance comfortably inside `i64`.

use vstd::prelude::*;

verus! {

/// Largest coordinate magnitude a position may carry.
pub const COORD_LIMIT: i64 = 1_000_000;

/// Largest squared distance between two in-bounds positions:
/// `3 * (2 * COORD_LIMIT)^2`.
pub const DIST_SQ_LIMIT: i64 = 12_000_000_000_000;

/// Strict upper bound for the integer square root of any in-range squared
/// distance: `EDGE_LEN_LIMIT^2 > DIST_SQ_LIMIT`.
pub const EDGE_LEN_LIMIT: i64 = 3_500_000;

/// A point of the road network, in fixed-point world units.
#[derive(Clone, Copy, PartialEq, Eq, Structural, Debug)]
pub struct Position {
    pub x: i64,
    pub y: i64,
    pub z: i64,
}

/// All three coordinates within `COORD_LIMIT`.
pub open spec fn pos_in_bounds(p: Position) -> bool {
    &&& -COORD_LIMIT <= p.x <= COORD_LIMIT
    &&& -COORD_LIMIT <= p.y <= COORD_LIMIT
    &&& -COORD_LIMIT <= p.z <= COORD_LIMIT
}

/// Squared Euclidean distance between two positions.
pub open spec fn dist_sq_spec(a: Position, b: Position) -> int {
    (a.x - b.x) * (a.x - b.x) + (a.y - b.y) * (a.y - b.y) + (a.z - b.z) * (a.z - b.z)
}

/// The floor of the nonnegative square root of `n`.
pub open spec fn sqrt_floor(n: int) -> int {
    choose|r: int| r >= 0 && #[trigger] (r * r) <= n < (r + 1) * (r + 1)
}

proof fn lemma_square_monotonic(a: int, b: int)
    requires
        0 <= a,
        a <= b,
    ensures
        a * a <= b * b,
{
    assert(a * a <= b * b) by (nonlinear_arith)
        requires
            0 <= a,
            a <= b,
    ;
}

/// `sqrt_floor` is pinned down by any witness: if `r^2 <= n < (r+1)^2` then
/// `sqrt_floor(n) == r`.
pub proof fn lemma_sqrt_floor_unique(n: int, r: int)
    requires
        0 <= r,
        r * r <= n,
        n < (r + 1) * (r + 1),
    ensures
        sqrt_floor(n) == r,
{
    let picked = choose|s: int| s >= 0 && #[trigger] (s * s) <= n < (s + 1) * (s + 1);
    assert(r >= 0 && r * r <= n < (r + 1) * (r + 1));
    assert(picked >= 0 && picked * picked <= n < (picked + 1) * (picked + 1));
    if picked < r {
        lemma_square_monotonic(picked + 1, r);
        assert(false);
    }
    if r < picked {
        lemma_square_monotonic(r + 1, picked);
        assert(false);
    }
}

/// Computes the squared distance between two in-bounds positions.
pub fn dist_sq(a: Position, b: Position) -> (r: i64)
    requires
        pos_in_bounds(a),
        pos_in_bounds(b),
    ensures
        r == dist_sq_spec(a, b),
        0 <= r <= DIST_SQ_LIMIT,
{
    let dx = a.x - b.x;
    let dy = a.y - b.y;
    let dz = a.z - b.z;
    proof {
        assert(0 <= dx * dx <= 4_000_000_000_000) by (nonlinear_arith)
            requires
                -2_000_000 <= dx <= 2_000_000,
        ;
        assert(0 <= dy * dy <= 4_000_000_000_000) by (nonlinear_arith)
            requires
                -2_000_000 <= dy <= 2_000_000,
        ;
        assert(0 <= dz * dz <= 4_000_000_000_000) by (nonlinear_arith)
            requires
                -2_000_000 <= dz <= 2_000_000,
        ;
    }
    dx * dx + dy * dy + dz * dz
}

/// Integer square root (floor) by binary search.
pub fn isqrt(n: i64) -> (r: i64)
    requires
        0 <= n <= DIST_SQ_LIMIT,
    ensures
        r == sqrt_floor(n as int),
        0 <= r < EDGE_LEN_LIMIT,
        r * r <= n < (r + 1) * (r + 1),
{
    let mut lo: i64 = 0;
    let mut hi: i64 = EDGE_LEN_LIMIT;
    proof {
        assert(EDGE_LEN_LIMIT * EDGE_LEN_LIMIT > DIST_SQ_LIMIT) by (nonlinear_arith);
    }
    while lo + 1 < hi
        invariant
            0 <= lo < hi <= EDGE_LEN_LIMIT,
            lo * lo <= n,
            n < hi * hi,
        decreases hi - lo,
    {
        let mid = lo + (((hi - lo) as u64 / 2) as i64);
        assert(lo < mid < hi);
        proof {
            assert(0 <= mid * mid <= EDGE_LEN_LIMIT * EDGE_LEN_LIMIT) by (nonlinear_arith)
                requires
                    0 <= mid <= EDGE_LEN_LIMIT,
            ;
        }
        if mid * mid <= n {
            lo = mid;
        } else {
            hi = mid;
        }
    }
    proof {
        assert(n < (lo + 1) * (lo + 1)) by {
            assert(lo + 1 == hi);
        }
        lemma_sqrt_floor_unique(n as int, lo as int);
    }
    lo
}

/// `sqrt_floor` is well defined for every nonnegative argument: the chosen
/// root really satisfies its defining inequalities.
pub proof fn lemma_sqrt_floor_exists(n: int)
    requires
        0 <= n,
    ensures
        sqrt_floor(n) >= 0,
        sqrt_floor(n) * sqrt_floor(n) <= n,
        n < (sqrt_floor(n) + 1) * (sqrt_floor(n) + 1),
    decreases n,
{
    if n == 0 {
        assert(0 * 0 <= 0 < (0 + 1) * (0 + 1)) by (nonlinear_arith);
        assert(exists|r: int| r >= 0 && #[trigger] (r * r) <= 0 < (r + 1) * (r + 1)) by {
            assert(0 >= 0 && 0 * 0 <= 0 < (0 + 1) * (0 + 1));
        }
    } else {
        lemma_sqrt_floor_exists(n - 1);
        let r = sqrt_floor(n - 1);
        if (r + 1) * (r + 1) <= n {
            assert(n == (r + 1) * (r + 1));
            assert(n < (r + 2) * (r + 2)) by (nonlinear_arith)
                requires
                    n == (r + 1) * (r + 1),
                    r >= 0,
            ;
            assert((r + 1) >= 0 && (r + 1) * (r + 1) <= n < (r + 2) * (r + 2));
            assert(exists|q: int| q >= 0 && #[trigger] (q * q) <= n < (q + 1) * (q + 1));
        } else {
            assert(r >= 0 && r * r <= n < (r + 1) * (r + 1));
            assert(exists|q: int| q >= 0 && #[trigger] (q * q) <= n < (q + 1) * (q + 1));
        }
    }
}

/// A square root of a value within the squared-distance range is below the
/// edge-length limit.
pub proof fn lemma_sqrt_floor_bounded(n: int)
    requires
        0 <= n <= DIST_SQ_LIMIT,
    ensures
        0 <= sqrt_floor(n) < EDGE_LEN_LIMIT,
        sqrt_floor(n) * sqrt_floor(n) <= n,
        n < (sqrt_floor(n) + 1) * (sqrt_floor(n) + 1),
        n >= 1 ==> sqrt_floor(n) >= 1,
{
    lemma_sqrt_floor_exists(n);
    let r = sqrt_floor(n);
    assert(EDGE_LEN_LIMIT * EDGE_LEN_LIMIT > DIST_SQ_LIMIT) by (nonlinear_arith);
    if r >= EDGE_LEN_LIMIT {
        lemma_square_monotonic(EDGE_LEN_LIMIT as int, r);
        assert(false);
    }
    if n >= 1 && r == 0 {
        assert(n < 1) by (nonlinear_arith)
            requires
                n < (r + 1) * (r + 1),
                r == 0,
        ;
    }
}

/// One axis of the interpolated point a fraction `num / den` of the way from
/// `from` to `to`, rounded toward `from`.
pub open spec fn lerp_axis_spec(from: int, to: int, num: int, den: int) -> int {
    if to >= from {
        from + (to - from) * num / den
    } else {
        from - (from - to) * num / den
    }
}

fn lerp_axis(from: i64, to: i64, num: i64, den: i64) -> (r: i64)
    requires
        -COORD_LIMIT <= from <= COORD_LIMIT,
        -COORD_LIMIT <= to <= COORD_LIMIT,
        0 < den < EDGE_LEN_LIMIT,
        0 <= num <= den,
    ensures
        r == lerp_axis_spec(from as int, to as int, num as int, den as int),
        -COORD_LIMIT <= r <= COORD_LIMIT,
{
    if to >= from {
        let delta = (to - from) as u64;
        proof {
            lemma_scaled_fraction_bounded(delta as int, num as int, den as int);
        }
        let off = (delta * (num as u64)) / (den as u64);
        from + (off as i64)
    } else {
        let delta = (from - to) as u64;
        proof {
            lemma_scaled_fraction_bounded(delta as int, num as int, den as int);
        }
        let off = (delta * (num as u64)) / (den as u64);
        from - (off as i64)
    }
}

/// `d * num / den <= d` when `0 <= num <= den`, with the product in range.
proof fn lemma_scaled_fraction_bounded(d: int, num: int, den: int)
    requires
        0 <= d <= 2_000_000,
        0 < den < 3_500_000,
        0 <= num <= den,
    ensures
        0 <= d * num <= 7_000_000_000_000,
        0 <= d * num / den <= d,
{
    assert(0 <= d * num <= d * den) by (nonlinear_arith)
        requires
            0 <= num <= den,
            0 <= d,
    ;
    assert(d * den <= 7_000_000_000_000) by (nonlinear_arith)
        requires
            0 <= d <= 2_000_000,
            0 < den < 3_500_000,
    ;
    assert(d * num / den <= d * den / den) by {
        vstd::arithmetic::div_mod::lemma_div_is_ordered(d * num, d * den, den);
    }
    assert(d * den / den == d) by (nonlinear_arith)
        requires
            0 < den,
    ;
    assert(0 <= d * num / den) by {
        vstd::arithmetic::div_mod::lemma_div_is_ordered(0, d * num, den);
    }
}

/// The point a fraction `num / den` of the way from `from` to `to`.
pub open spec fn lerp_spec(from: Position, to: Position, num: int, den: int) -> Position {
    Position {
        x: lerp_axis_spec(from.x as int, to.x as int, num, den) as i64,
        y: lerp_axis_spec(from.y as int, to.y as int, num, den) as i64,
        z: lerp_axis_spec(from.z as int, to.z as int, num, den) as i64,
    }
}

/// Interpolates between two in-bounds positions by the fraction `num / den`.
pub fn lerp(from: Position, to: Position, num: i64, den: i64) -> (r: Position)
    requires
        pos_in_bounds(from),
        pos_in_bounds(to),
        0 < den < EDGE_LEN_LIMIT,
        0 <= num <= den,
    ensures
        r == lerp_spec(from, to, num as int, den as int),
        pos_in_bounds(r),
{
    Position {
        x: lerp_axis(from.x, to.x, num, den),
        y: lerp_axis(from.y, to.y, num, den),
        z: lerp_axis(from.z, to.z, num, den),
    }
}

} // verus!
