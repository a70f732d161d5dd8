//! Geometry kernel: polyline length and polygon area over integer pixel
//! coordinates. Lengths use an exact integer square root per segment; areas
//! use the shoelace formula with cyclic wrap-around.
use vstd::prelude::*;

verus! {

/// A point in pixel space.
#[derive(Clone, Copy, PartialEq, Eq, Structural, Debug)]
pub struct Point {
    pub x: i64,
    pub y: i64,
}

/// Largest coordinate magnitude the kernel accepts (keeps all intermediate
/// products inside machine integers).
pub const COORD_BOUND: i64 = 1_000_000;

/// Largest number of vertices the kernel accepts.
pub const MAX_POINTS: usize = 1_000_000;

pub open spec fn valid_point(p: Point) -> bool {
    &&& -COORD_BOUND <= p.x <= COORD_BOUND
    &&& -COORD_BOUND <= p.y <= COORD_BOUND
}

pub open spec fn valid_points(s: Seq<Point>) -> bool {
    forall|i: int| 0 <= i < s.len() ==> valid_point(#[trigger] s[i])
}

/// Floor of the square root of `n`.
pub open spec fn sqrt_floor(n: nat) -> nat
    decreases n,
{
    if n == 0 {
        0
    } else {
        let r = sqrt_floor((n - 1) as nat);
        if (r + 1) * (r + 1) <= n {
            r + 1
        } else {
            r
        }
    }
}

#[verifier::rlimit(50)]
pub proof fn lemma_sqrt_floor_bounds(n: nat)
    ensures
        sqrt_floor(n) * sqrt_floor(n) <= n,
        n < (sqrt_floor(n) + 1) * (sqrt_floor(n) + 1),
    decreases n,
{
    if n == 0 {
        assert(sqrt_floor(n) == 0);
        assert(n < (sqrt_floor(n) + 1) * (sqrt_floor(n) + 1)) by (nonlinear_arith)
            requires
                n == 0,
                sqrt_floor(n) == 0,
        ;
    } else {
        lemma_sqrt_floor_bounds((n - 1) as nat);
        let r = sqrt_floor((n - 1) as nat);
        assert(r * r <= n - 1);
        assert(n - 1 < (r + 1) * (r + 1));
        if (r + 1) * (r + 1) <= n {
            assert(sqrt_floor(n) == r + 1);
            assert(n < (r + 1 + 1) * (r + 1 + 1)) by (nonlinear_arith)
                requires
                    n <= (r + 1) * (r + 1),
                    r >= 0,
            ;
            assert((sqrt_floor(n) + 1) * (sqrt_floor(n) + 1) == (r + 1 + 1) * (r + 1 + 1))
                by (nonlinear_arith)
                requires
                    sqrt_floor(n) == r + 1,
            ;
        } else {
            assert(sqrt_floor(n) == r);
            assert((sqrt_floor(n) + 1) * (sqrt_floor(n) + 1) == (r + 1) * (r + 1))
                by (nonlinear_arith)
                requires
                    sqrt_floor(n) == r,
            ;
        }
    }
}

pub proof fn lemma_sqrt_floor_unique(n: nat, r: nat)
    requires
        r * r <= n,
        n < (r + 1) * (r + 1),
    ensures
        r == sqrt_floor(n),
{
    lemma_sqrt_floor_bounds(n);
    let s = sqrt_floor(n);
    if r < s {
        assert((r + 1) * (r + 1) <= s * s) by (nonlinear_arith)
            requires
                r + 1 <= s,
        ;
    }
    if s < r {
        assert((s + 1) * (s + 1) <= r * r) by (nonlinear_arith)
            requires
                s + 1 <= r,
        ;
    }
}

/// Squared Euclidean distance.
pub open spec fn dist2(p: Point, q: Point) -> nat {
    ((q.x - p.x) * (q.x - p.x) + (q.y - p.y) * (q.y - p.y)) as nat
}

/// Length of one segment: floor of the Euclidean distance.
pub open spec fn seg_len(p: Point, q: Point) -> nat {
    sqrt_floor(dist2(p, q))
}

/// Sum of the segment lengths over vertex pairs `lo..hi` of `s`.
pub open spec fn len_range(s: Seq<Point>, lo: int, hi: int) -> nat
    decreases hi - lo,
{
    if lo >= hi {
        0
    } else {
        seg_len(s[lo], s[lo + 1]) + len_range(s, lo + 1, hi)
    }
}

/// Total polyline length: sum of segment lengths between consecutive points;
/// zero for fewer than two points.
pub open spec fn polyline_len(s: Seq<Point>) -> nat {
    if s.len() < 2 {
        0
    } else {
        len_range(s, 0, s.len() - 1)
    }
}

proof fn lemma_len_range_peel_top(s: Seq<Point>, lo: int, hi: int)
    requires
        lo < hi,
    ensures
        len_range(s, lo, hi) == len_range(s, lo, hi - 1) + seg_len(s[hi - 1], s[hi]),
    decreases hi - lo,
{
    if lo + 1 < hi {
        lemma_len_range_peel_top(s, lo + 1, hi);
    } else {
        assert(len_range(s, lo + 1, hi) == 0);
        assert(len_range(s, lo, hi - 1) == 0);
    }
}

proof fn lemma_seg_len_sym(p: Point, q: Point)
    ensures
        seg_len(p, q) == seg_len(q, p),
{
    assert((q.x - p.x) * (q.x - p.x) == (p.x - q.x) * (p.x - q.x)) by (nonlinear_arith);
    assert((q.y - p.y) * (q.y - p.y) == (p.y - q.y) * (p.y - q.y)) by (nonlinear_arith);
}

proof fn lemma_seg_len_bound(p: Point, q: Point)
    requires
        valid_point(p),
        valid_point(q),
    ensures
        seg_len(p, q) <= 2_900_000,
        dist2(p, q) <= 8_000_000_000_000,
        0 <= (q.x - p.x) * (q.x - p.x) <= 4_000_000_000_000,
        0 <= (q.y - p.y) * (q.y - p.y) <= 4_000_000_000_000,
        dist2(p, q) == (q.x - p.x) * (q.x - p.x) + (q.y - p.y) * (q.y - p.y),
{
    assert(0 <= (q.x - p.x) * (q.x - p.x) <= 4_000_000_000_000
        && 0 <= (q.y - p.y) * (q.y - p.y) <= 4_000_000_000_000) by (nonlinear_arith)
        requires
            -2_000_000 <= q.x - p.x <= 2_000_000,
            -2_000_000 <= q.y - p.y <= 2_000_000,
    ;
    lemma_sqrt_floor_bounds(dist2(p, q));
    let r = sqrt_floor(dist2(p, q));
    if r > 2_900_000 {
        assert(2_900_001 * 2_900_001 <= r * r) by (nonlinear_arith)
            requires
                2_900_001 <= r,
        ;
        assert(false);
    }
}

/// Floor of the square root, executable.
pub fn isqrt64(n: u64) -> (r: u64)
    ensures
        r == sqrt_floor(n as nat),
{
    let mut lo: u64 = 0;
    let mut hi: u64 = 0x1_0000_0000;
    proof {
        assert((hi * hi) > n as int) by (nonlinear_arith)
            requires
                hi == 0x1_0000_0000,
                n <= 0xffff_ffff_ffff_ffff,
        ;
    }
    while lo + 1 < hi
        invariant
            lo < hi <= 0x1_0000_0000,
            lo * lo <= n,
            (n as int) < hi * hi,
        decreases hi - lo,
    {
        let mid = lo + (hi - lo) / 2;
        proof {
            assert(mid * mid <= 0xffff_ffff * 0xffff_ffff) by (nonlinear_arith)
                requires
                    0 <= mid <= 0xffff_ffff,
            ;
        }
        if mid * mid <= n {
            lo = mid;
        } else {
            hi = mid;
        }
    }
    proof {
        lemma_sqrt_floor_unique(n as nat, lo as nat);
    }
    lo
}

/// Sum of Euclidean distances (each rounded down to a whole pixel) between
/// consecutive points; `0` for fewer than two points.
pub fn length_px(points: &Vec<Point>) -> (r: u64)
    requires
        valid_points(points@),
        points@.len() <= MAX_POINTS,
    ensures
        r == polyline_len(points@),
        points@.len() < 2 ==> r == 0,
{
    if points.len() < 2 {
        return 0;
    }
    let n = points.len();
    let mut sum: u64 = 0;
    let mut i: usize = 0;
    while i < n - 1
        invariant
            2 <= n == points@.len() <= MAX_POINTS,
            0 <= i <= n - 1,
            valid_points(points@),
            sum == len_range(points@, 0, i as int),
            sum <= i * 2_900_000,
        decreases n - 1 - i,
    {
        let p = points[i];
        let q = points[i + 1];
        let dx = q.x - p.x;
        let dy = q.y - p.y;
        proof {
            lemma_seg_len_bound(p, q);
        }
        let d2 = (dx * dx) as u64 + (dy * dy) as u64;
        let d = isqrt64(d2);
        sum = sum + d;
        proof {
            lemma_len_range_peel_top(points@, 0, i + 1);
        }
        i = i + 1;
    }
    sum
}

/// Cross product term of the shoelace formula.
pub open spec fn cross(p: Point, q: Point) -> int {
    p.x * q.y - q.x * p.y
}

/// Shoelace sum over vertex indices `lo..hi` of `s`, wrapping cyclically.
pub open spec fn sho_range(s: Seq<Point>, lo: int, hi: int) -> int
    decreases hi - lo,
{
    if lo >= hi {
        0
    } else {
        cross(s[lo], s[(lo + 1) % (s.len() as int)]) + sho_range(s, lo + 1, hi)
    }
}

/// Full signed shoelace sum (twice the signed polygon area).
pub open spec fn shoelace(s: Seq<Point>) -> int {
    sho_range(s, 0, s.len() as int)
}

/// Unsigned polygon area: half the magnitude of the shoelace sum; zero for
/// fewer than three points.
pub open spec fn spec_area(s: Seq<Point>) -> nat {
    if s.len() < 3 {
        0
    } else if shoelace(s) >= 0 {
        (shoelace(s) / 2) as nat
    } else {
        ((-shoelace(s)) / 2) as nat
    }
}

proof fn lemma_sho_range_peel_top(s: Seq<Point>, lo: int, hi: int)
    requires
        lo < hi,
    ensures
        sho_range(s, lo, hi) == sho_range(s, lo, hi - 1) + cross(
            s[hi - 1],
            s[hi % (s.len() as int)],
        ),
    decreases hi - lo,
{
    if lo + 1 < hi {
        lemma_sho_range_peel_top(s, lo + 1, hi);
    } else {
        assert(sho_range(s, lo + 1, hi) == 0);
        assert(sho_range(s, lo, hi - 1) == 0);
    }
}

proof fn lemma_cross_bound(p: Point, q: Point)
    requires
        valid_point(p),
        valid_point(q),
    ensures
        -2_000_000_000_000 <= cross(p, q) <= 2_000_000_000_000,
{
    assert(-1_000_000_000_000 <= p.x * q.y <= 1_000_000_000_000
        && -1_000_000_000_000 <= q.x * p.y <= 1_000_000_000_000) by (nonlinear_arith)
        requires
            -1_000_000 <= p.x <= 1_000_000,
            -1_000_000 <= p.y <= 1_000_000,
            -1_000_000 <= q.x <= 1_000_000,
            -1_000_000 <= q.y <= 1_000_000,
    ;
}

proof fn lemma_sho_range_bound(s: Seq<Point>, lo: int, hi: int)
    requires
        valid_points(s),
        0 <= lo <= hi <= s.len(),
    ensures
        -(hi - lo) * 2_000_000_000_000 <= sho_range(s, lo, hi) <= (hi - lo) * 2_000_000_000_000,
    decreases hi - lo,
{
    if lo < hi {
        lemma_sho_range_bound(s, lo + 1, hi);
        if s.len() > 0 {
            lemma_cross_bound(s[lo], s[(lo + 1) % (s.len() as int)]);
        }
    }
}

/// Absolute shoelace area (half the magnitude of the signed doubled area);
/// `0` for fewer than three points. The polygon wraps from the last point
/// back to the first.
pub fn area_px(points: &Vec<Point>) -> (r: u64)
    requires
        valid_points(points@),
        points@.len() <= MAX_POINTS,
    ensures
        r == spec_area(points@),
        points@.len() < 3 ==> r == 0,
{
    if points.len() < 3 {
        return 0;
    }
    let n = points.len();
    let mut sum: i64 = 0;
    let mut i: usize = 0;
    while i < n
        invariant
            3 <= n == points@.len() <= MAX_POINTS,
            0 <= i <= n,
            valid_points(points@),
            sum == sho_range(points@, 0, i as int),
            -(i as int) * 2_000_000_000_000 <= sum <= (i as int) * 2_000_000_000_000,
        decreases n - i,
    {
        let p = points[i];
        let j = if i + 1 == n {
            0
        } else {
            i + 1
        };
        let q = points[j];
        proof {
            lemma_cross_bound(p, q);
            assert((i + 1) % (points@.len() as int) == j as int) by {
                if i + 1 < n {
                    assert((i + 1) % (n as int) == i + 1) by (nonlinear_arith)
                        requires
                            0 <= i + 1 < n,
                    ;
                } else {
                    assert((n as int) % (n as int) == 0) by (nonlinear_arith)
                        requires
                            n > 0,
                    ;
                }
            }
        }
        proof {
            assert(-1_000_000_000_000 <= p.x * q.y <= 1_000_000_000_000
                && -1_000_000_000_000 <= q.x * p.y <= 1_000_000_000_000) by (nonlinear_arith)
                requires
                    -1_000_000 <= p.x <= 1_000_000,
                    -1_000_000 <= p.y <= 1_000_000,
                    -1_000_000 <= q.x <= 1_000_000,
                    -1_000_000 <= q.y <= 1_000_000,
            ;
        }
        sum = sum + (p.x * q.y - q.x * p.y);
        proof {
            lemma_sho_range_peel_top(points@, 0, i + 1);
        }
        i = i + 1;
    }
    if sum >= 0 {
        (sum as u64) / 2
    } else {
        ((-sum) as u64) / 2
    }
}

proof fn lemma_len_range_rev(s: Seq<Point>, t: Seq<Point>, k: int)
    requires
        t.len() == s.len(),
        s.len() >= 1,
        forall|j: int| 0 <= j < s.len() ==> t[j] == s[s.len() - 1 - j],
        0 <= k <= s.len() - 1,
    ensures
        len_range(t, 0, k) == len_range(s, s.len() - 1 - k, s.len() - 1),
    decreases k,
{
    let n = s.len() as int;
    if k > 0 {
        lemma_len_range_rev(s, t, k - 1);
        lemma_len_range_peel_top(t, 0, k);
        lemma_seg_len_sym(s[n - 1 - k], s[n - k]);
        assert(seg_len(t[k - 1], t[k]) == seg_len(s[n - k], s[n - 1 - k]));
        assert(len_range(s, n - 1 - k, n - 1) == seg_len(s[n - 1 - k], s[n - k]) + len_range(
            s,
            n - k,
            n - 1,
        ));
    }
}

/// Law: polyline length is invariant under reversing the point order.
pub proof fn lemma_length_reverse(s: Seq<Point>)
    ensures
        polyline_len(s.reverse()) == polyline_len(s),
{
    let t = s.reverse();
    if s.len() >= 2 {
        assert(forall|j: int| 0 <= j < s.len() ==> t[j] == s[s.len() - 1 - j]);
        lemma_len_range_rev(s, t, s.len() - 1);
    }
}

proof fn lemma_sho_range_rev(s: Seq<Point>, t: Seq<Point>, k: int)
    requires
        t.len() == s.len(),
        s.len() >= 1,
        forall|j: int| 0 <= j < s.len() ==> t[j] == s[s.len() - 1 - j],
        0 <= k <= s.len() - 1,
    ensures
        sho_range(t, 0, k) == -sho_range(s, s.len() - 1 - k, s.len() - 1),
    decreases k,
{
    let n = s.len() as int;
    if k > 0 {
        lemma_sho_range_rev(s, t, k - 1);
        lemma_sho_range_peel_top(t, 0, k);
        assert(k % n == k) by (nonlinear_arith)
            requires
                0 <= k < n,
        ;
        assert((n - k) % n == n - k) by (nonlinear_arith)
            requires
                1 <= n - k < n,
        ;
        assert(cross(t[k - 1], t[k]) == cross(s[n - k], s[n - 1 - k]));
        assert(cross(s[n - k], s[n - 1 - k]) == -cross(s[n - 1 - k], s[n - k]));
        assert(sho_range(s, n - 1 - k, n - 1) == cross(s[n - 1 - k], s[n - k]) + sho_range(
            s,
            n - k,
            n - 1,
        ));
    }
}

/// Law: reversing the point order negates the signed shoelace sum and leaves
/// the unsigned polygon area unchanged.
pub proof fn lemma_area_reverse(s: Seq<Point>)
    ensures
        shoelace(s.reverse()) == -shoelace(s),
        spec_area(s.reverse()) == spec_area(s),
{
    let t = s.reverse();
    let n = s.len() as int;
    if n == 0 {
        assert(sho_range(t, 0, 0) == 0);
        assert(sho_range(s, 0, 0) == 0);
    } else {
        lemma_sho_range_rev(s, t, n - 1);
        lemma_sho_range_peel_top(t, 0, n);
        lemma_sho_range_peel_top(s, 0, n);
        assert(n % n == 0) by (nonlinear_arith)
            requires
                n >= 1,
        ;
        assert(cross(t[n - 1], t[0]) == cross(s[0], s[n - 1]));
        assert(cross(s[0], s[n - 1]) == -cross(s[n - 1], s[0]));
        assert(shoelace(t) == sho_range(t, 0, n - 1) + cross(t[n - 1], t[0]));
        assert(shoelace(s) == sho_range(s, 0, n - 1) + cross(s[n - 1], s[0]));
    }
}

/// Floor of the square root, executable over the full 128-bit range.
pub fn isqrt128(n: u128) -> (r: u128)
    ensures
        r == sqrt_floor(n as nat),
{
    let mut lo: u128 = 0;
    let mut hi: u128 = 0x1_0000_0000_0000_0000;
    proof {
        assert((hi * hi) > n as int) by (nonlinear_arith)
            requires
                hi == 0x1_0000_0000_0000_0000,
                n <= 0xffff_ffff_ffff_ffff_ffff_ffff_ffff_ffff,
        ;
    }
    while lo + 1 < hi
        invariant
            lo < hi <= 0x1_0000_0000_0000_0000,
            lo * lo <= n,
            (n as int) < hi * hi,
        decreases hi - lo,
    {
        let mid = lo + (hi - lo) / 2;
        proof {
            assert(mid * mid <= 0xffff_ffff_ffff_ffff * 0xffff_ffff_ffff_ffff)
                by (nonlinear_arith)
                requires
                    0 <= mid <= 0xffff_ffff_ffff_ffff,
            ;
        }
        if mid * mid <= n {
            lo = mid;
        } else {
            hi = mid;
        }
    }
    proof {
        lemma_sqrt_floor_unique(n as nat, lo as nat);
    }
    lo
}

} // verus!

