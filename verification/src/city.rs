use vstd::prelude::*;

verus! {

/// Largest fixed-point coordinate magnitude accepted for a city.
pub const COORD_LIMIT: i64 = 1_000_000_000;

/// Largest value an edge between two in-range cities can take.
pub const MAX_EDGE: u64 = 3_000_000_000;

/// The square of an integer.
pub open spec fn sq(a: int) -> int {
    a * a
}

/// Floor of the square root of `n`, defined by counting upwards.
pub open spec fn sqrt_floor(n: nat) -> nat
    decreases n,
{
    if n == 0 {
        0
    } else {
        let r = sqrt_floor((n - 1) as nat);
        if sq(r as int + 1) <= n {
            (r + 1) as nat
        } else {
            r
        }
    }
}

/// `sqrt_floor(n)` lies between the two consecutive squares around `n`.
pub proof fn lemma_sqrt_floor_bounds(n: nat)
    ensures
        sq(sqrt_floor(n) as int) <= n,
        n < sq(sqrt_floor(n) as int + 1),
    decreases n,
{
    if n == 0 {
        assert(sqrt_floor(0) == 0);
        assert(sq(0int) == 0);
        assert(sq(1int) == 1);
    } else {
        lemma_sqrt_floor_bounds((n - 1) as nat);
        let r = sqrt_floor((n - 1) as nat) as int;
        if sq(r + 1) <= n {
            assert(sqrt_floor(n) as int == r + 1);
            assert(n - 1 < sq(r + 1));
            assert(n == sq(r + 1));
            assert(sq(r + 1) < sq(r + 2)) by (nonlinear_arith)
                requires r >= 0;
        } else {
            assert(sqrt_floor(n) as int == r);
        }
    }
}


/// Any `r` whose square brackets `n` equals `sqrt_floor(n)`.
pub proof fn lemma_sqrt_floor_unique(n: nat, r: nat)
    requires
        sq(r as int) <= n,
        n < sq(r as int + 1),
    ensures
        r == sqrt_floor(n),
{
    let s = sqrt_floor(n) as int;
    lemma_sqrt_floor_bounds(n);
    if (r as int) < s {
        assert(sq(r as int + 1) <= sq(s)) by (nonlinear_arith)
            requires 0 <= r as int + 1 <= s;
        assert(false);
    }
    if s < r as int {
        assert(sq(s + 1) <= sq(r as int)) by (nonlinear_arith)
            requires 0 <= s + 1 <= r as int;
        assert(false);
    }
}

/// Floor of the square root of a machine integer, by binary search.
pub fn isqrt(n: u64) -> (r: u64)
    ensures
        r as nat == sqrt_floor(n as nat),
        sq(r as int) <= n as int,
        (n as int) < sq(r as int + 1),
{
    let mut lo: u64 = 0;
    let mut hi: u64 = 0x1_0000_0000;
    proof {
        assert(sq(0x1_0000_0000int) > n as int) by (nonlinear_arith)
            requires n <= 0xffff_ffff_ffff_ffffu64;
    }
    while lo + 1 < hi
        invariant
            lo < hi <= 0x1_0000_0000u64,
            sq(lo as int) <= n as int,
            (n as int) < sq(hi as int),
        decreases hi - lo,
    {
        let mid: u64 = lo + (hi - lo) / 2;
        proof {
            assert(mid * mid <= 0xffff_ffff_ffff_ffffu64) by (nonlinear_arith)
                requires mid <= 0xffff_ffffu64;
        }
        if mid * mid <= n {
            lo = mid;
        } else {
            hi = mid;
        }
    }
    proof {
        lemma_sqrt_floor_unique(n as nat, lo as nat);
    }
    lo
}

/// An immutable 2D point with fixed-point integer coordinates. The index of
/// a city in the city list, not the point itself, is what tours permute.
pub struct City {
    pub x: i64,
    pub y: i64,
}

impl City {
    /// Coordinates small enough that every distance computation fits in u64.
    pub open spec fn in_range(self) -> bool {
        &&& -COORD_LIMIT <= self.x <= COORD_LIMIT
        &&& -COORD_LIMIT <= self.y <= COORD_LIMIT
    }

    pub fn new(x: i64, y: i64) -> (c: City)
        requires
            -COORD_LIMIT <= x <= COORD_LIMIT,
            -COORD_LIMIT <= y <= COORD_LIMIT,
        ensures
            c.x == x,
            c.y == y,
            c.in_range(),
    {
        City { x, y }
    }
}

/// Largest number of cities a simulation accepts.
pub const MAX_CITIES: usize = 1_000_000;

/// A usable city list: at least two cities (a tour of fewer has no cost),
/// few enough and small enough that every cost fits in a machine word.
pub open spec fn cities_ok(cities: Seq<City>) -> bool {
    &&& 2 <= cities.len() <= MAX_CITIES
    &&& forall|i: int| 0 <= i < cities.len() ==> (#[trigger] cities[i]).in_range()
}

/// Two cities lie at the same point.
pub open spec fn same_point(a: City, b: City) -> bool {
    a.x == b.x && a.y == b.y
}

/// At least two of the cities lie at distinct points, so no tour can have
/// cost zero (whose inverse, the fitness, would be undefined).
pub open spec fn has_distinct_pair(cities: Seq<City>) -> bool {
    exists|i: int, j: int|
        0 <= i < cities.len() && 0 <= j < cities.len() && !same_point(cities[i], cities[j])
}

/// Euclidean distance between two cities, rounded down to an integer.
pub open spec fn dist_spec(a: City, b: City) -> int {
    sqrt_floor((sq(a.x - b.x) + sq(a.y - b.y)) as nat) as int
}

/// Distances between in-range cities are bounded by `MAX_EDGE`.
pub proof fn lemma_dist_bound(a: City, b: City)
    requires
        a.in_range(),
        b.in_range(),
    ensures
        0 <= dist_spec(a, b) <= MAX_EDGE,
{
    let d = sq(a.x - b.x) + sq(a.y - b.y);
    assert(0 <= sq(a.x - b.x) <= 4_000_000_000_000_000_000int) by (nonlinear_arith)
        requires -2_000_000_000 <= a.x - b.x <= 2_000_000_000;
    assert(0 <= sq(a.y - b.y) <= 4_000_000_000_000_000_000int) by (nonlinear_arith)
        requires -2_000_000_000 <= a.y - b.y <= 2_000_000_000;
    lemma_sqrt_floor_bounds(d as nat);
    let s = sqrt_floor(d as nat) as int;
    if s > MAX_EDGE {
        assert(sq(3_000_000_000int + 1) <= sq(s)) by (nonlinear_arith)
            requires 3_000_000_000int + 1 <= s;
        assert(sq(3_000_000_000int + 1) > 8_000_000_000_000_000_000int) by (nonlinear_arith);
        assert(false);
    }
}

/// Two cities at distinct points are at least one unit apart.
pub proof fn lemma_dist_positive(a: City, b: City)
    requires
        a.x != b.x || a.y != b.y,
    ensures
        dist_spec(a, b) >= 1,
{
    let d = sq(a.x - b.x) + sq(a.y - b.y);
    assert(sq(a.x - b.x) >= 0) by (nonlinear_arith);
    assert(sq(a.y - b.y) >= 0) by (nonlinear_arith);
    if a.x != b.x {
        assert(sq(a.x - b.x) >= 1) by (nonlinear_arith)
            requires a.x - b.x != 0;
    } else {
        assert(sq(a.y - b.y) >= 1) by (nonlinear_arith)
            requires a.y - b.y != 0;
    }
    lemma_sqrt_floor_bounds(d as nat);
    let s = sqrt_floor(d as nat) as int;
    if s == 0 {
        assert((d as nat) < sq(1));
        assert(sq(1) == 1);
        assert(false);
    }
}

/// Euclidean distance between two in-range cities, rounded down.
pub fn dist(a: &City, b: &City) -> (d: u64)
    requires
        a.in_range(),
        b.in_range(),
    ensures
        d as int == dist_spec(*a, *b),
        d <= MAX_EDGE,
{
    let dx: i64 = a.x - b.x;
    let dy: i64 = a.y - b.y;
    let adx: u64 = if dx < 0 {
        (-dx) as u64
    } else {
        dx as u64
    };
    let ady: u64 = if dy < 0 {
        (-dy) as u64
    } else {
        dy as u64
    };
    proof {
        assert(adx * adx == sq(a.x - b.x) && adx * adx <= 4_000_000_000_000_000_000u64)
            by (nonlinear_arith)
            requires
                adx as int == if a.x - b.x < 0 { -(a.x - b.x) } else { a.x - b.x },
                -2_000_000_000 <= a.x - b.x <= 2_000_000_000;
        assert(ady * ady == sq(a.y - b.y) && ady * ady <= 4_000_000_000_000_000_000u64)
            by (nonlinear_arith)
            requires
                ady as int == if a.y - b.y < 0 { -(a.y - b.y) } else { a.y - b.y },
                -2_000_000_000 <= a.y - b.y <= 2_000_000_000;
    }
    let sum: u64 = adx * adx + ady * ady;
    let r: u64 = isqrt(sum);
    proof {
        lemma_dist_bound(*a, *b);
    }
    r
}

} // verus!
