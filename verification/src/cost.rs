use crate::point::Point2d;
use vstd::prelude::*;

verus! {

/// Cost of one straight step, in fixed point: path costs are held as
/// integers in millionths of a straight step.
pub const STRAIGHT_COST: u64 = 1_000_000;

/// Cost of one diagonal step: the square root of two, in the same fixed point
/// (rounded to the nearest millionth).
pub const DIAGONAL_COST: u64 = 1_414_214;

/// Distance between two coordinates.
pub open spec fn dist(a: int, b: int) -> int {
    if a < b {
        b - a
    } else {
        a - b
    }
}

/// `r` is the integer square root of `n`: the largest `r` with `r * r <= n`.
pub open spec fn is_isqrt(r: int, n: int) -> bool {
    &&& 0 <= r
    &&& r * r <= n
    &&& n < (r + 1) * (r + 1)
}

/// The estimates a search can steer by.
#[derive(Debug, Copy, Clone, PartialEq, Eq, Structural)]
pub enum Heuristic {
    /// Sum of the coordinate distances.
    Manhattan,
    /// Distance with diagonal moves allowed.
    Octal,
    /// Straight-line distance.
    Euclidean,
    /// No estimate.
    Zero,
}

/// Manhattan estimate: the sum of the coordinate distances, in cost units.
pub open spec fn spec_manhattan(s: Point2d, t: Point2d) -> int {
    (dist(s.x as int, t.x as int) + dist(s.y as int, t.y as int)) * STRAIGHT_COST
}

/// Octal estimate: `dx + dy + (sqrt 2 - 2) * min(dx, dy)`, that is the larger
/// distance in straight steps plus the smaller in diagonal steps.
pub open spec fn spec_octal(s: Point2d, t: Point2d) -> int {
    let dx = dist(s.x as int, t.x as int);
    let dy = dist(s.y as int, t.y as int);
    let m = if dx <= dy {
        dx
    } else {
        dy
    };
    (dx + dy) * STRAIGHT_COST - (2 * STRAIGHT_COST - DIAGONAL_COST) * m
}

/// The squared straight-line distance, in cost units squared.
pub open spec fn spec_euclid_sq(s: Point2d, t: Point2d) -> int {
    let dx = s.x - t.x;
    let dy = s.y - t.y;
    (dx * dx + dy * dy) * (STRAIGHT_COST * STRAIGHT_COST)
}

/// The coordinates fit the `i32` arithmetic of the straight-line estimate.
pub open spec fn euclid_fits(s: Point2d, t: Point2d) -> bool {
    &&& s.x <= i32::MAX
    &&& s.y <= i32::MAX
    &&& t.x <= i32::MAX
    &&& t.y <= i32::MAX
    &&& (s.x - t.x) * (s.x - t.x) + (s.y - t.y) * (s.y - t.y) <= i32::MAX
}

/// Integer square root by bisection.
pub fn isqrt(n: u128) -> (r: u64)
    ensures
        is_isqrt(r as int, n as int),
{
    let mut lo: u128 = 0;
    let mut hi: u128 = 0x1_0000_0000_0000_0000;
    assert(n < hi * hi) by (nonlinear_arith)
        requires
            hi == 0x1_0000_0000_0000_0000u128,
            n <= u128::MAX,
    ;
    while hi - lo > 1
        invariant
            lo < hi <= 0x1_0000_0000_0000_0000u128,
            lo * lo <= n,
            n < hi * hi,
        decreases hi - lo,
    {
        let mid = lo + (hi - lo) / 2;
        assert(mid * mid <= 0xFFFF_FFFF_FFFF_FFFE_0000_0000_0000_0001u128) by (nonlinear_arith)
            requires
                mid < 0x1_0000_0000_0000_0000u128,
        ;
        if mid * mid <= n {
            lo = mid;
        } else {
            hi = mid;
        }
    }
    assert(hi == lo + 1);
    lo as u64
}

/// `v` held in the cost type: `v`, or `u64::MAX` when it is larger.
pub open spec fn capped(v: int) -> int {
    if v > u64::MAX {
        u64::MAX as int
    } else {
        v
    }
}

/// The coordinate distances between `s` and `t` add up within `usize`, as
/// the Manhattan estimate adds them.
pub open spec fn steps_fit(s: Point2d, t: Point2d) -> bool {
    dist(s.x as int, t.x as int) + dist(s.y as int, t.y as int) <= usize::MAX
}

/// A cost computed in `u128`, held in the cost type (capped).
fn cap_cost(v: u128) -> (c: u64)
    ensures
        c == capped(v as int),
{
    if v > 0xFFFF_FFFF_FFFF_FFFFu128 {
        u64::MAX
    } else {
        v as u64
    }
}

/// Manhattan estimate between two points, capped to the cost type.
pub fn manhattan_heuristic(source: Point2d, target: Point2d) -> (h: u64)
    requires
        steps_fit(source, target),
    ensures
        h == capped(spec_manhattan(source, target)),
{
    let dx = crate::absdiff::absdiff(source.x, target.x);
    let dy = crate::absdiff::absdiff(source.y, target.y);
    assert(dx == dist(source.x as int, target.x as int));
    let steps = dx + dy;
    assert(steps * STRAIGHT_COST <= u128::MAX) by (nonlinear_arith)
        requires
            steps <= 0xFFFF_FFFF_FFFF_FFFFu128,
    ;
    cap_cost((steps as u128) * (STRAIGHT_COST as u128))
}

/// Octal estimate between two points, capped to the cost type.
pub fn octal_heuristic(source: Point2d, target: Point2d) -> (h: u64)
    ensures
        h == capped(spec_octal(source, target)),
{
    let dx = crate::absdiff::absdiff(source.x, target.x);
    let dy = crate::absdiff::absdiff(source.y, target.y);
    assert(dx == dist(source.x as int, target.x as int));
    let min = if dx <= dy {
        dx
    } else {
        dy
    };
    assert((dx + dy) * STRAIGHT_COST <= u128::MAX) by (nonlinear_arith)
        requires
            dx <= 0xFFFF_FFFF_FFFF_FFFFu128,
            dy <= 0xFFFF_FFFF_FFFF_FFFFu128,
    ;
    assert((2 * STRAIGHT_COST - DIAGONAL_COST) * min <= (dx + dy) * STRAIGHT_COST)
        by (nonlinear_arith)
        requires
            min <= dx,
            min <= dy,
    ;
    let total = (dx as u128 + dy as u128) * (STRAIGHT_COST as u128);
    let cut = ((2 * STRAIGHT_COST - DIAGONAL_COST) as u128) * (min as u128);
    cap_cost(total - cut)
}

/// Straight-line estimate between two points, rounded down.
pub fn euclidean_heuristic(source: Point2d, target: Point2d) -> (h: u64)
    requires
        euclid_fits(source, target),
    ensures
        is_isqrt(h as int, spec_euclid_sq(source, target)),
{
    let x = source.x as i32 - target.x as i32;
    assert(0 <= (source.y - target.y) * (source.y - target.y)) by (nonlinear_arith);
    assert(0 <= x * x <= i32::MAX) by (nonlinear_arith)
        requires
            x == source.x - target.x,
            (source.x - target.x) * (source.x - target.x) + (source.y - target.y) * (source.y
                - target.y) <= i32::MAX,
            0 <= (source.y - target.y) * (source.y - target.y),
    ;
    let xx = x * x;
    let y = source.y as i32 - target.y as i32;
    assert(0 <= y * y <= i32::MAX - xx) by (nonlinear_arith)
        requires
            y == source.y - target.y,
            xx == (source.x - target.x) * (source.x - target.x),
            (source.x - target.x) * (source.x - target.x) + (source.y - target.y) * (source.y
                - target.y) <= i32::MAX,
    ;
    let yy = y * y;
    let sum = xx + yy;
    assert(0 <= sum) by (nonlinear_arith)
        requires
            xx == x * x,
            yy == y * y,
            sum == xx + yy,
    ;
    assert(sum * (STRAIGHT_COST * STRAIGHT_COST) <= u128::MAX) by (nonlinear_arith)
        requires
            0 <= sum <= i32::MAX,
    ;
    let scaled = (sum as u128) * ((STRAIGHT_COST as u128) * (STRAIGHT_COST as u128));
    isqrt(scaled)
}

/// The estimate of no search guidance.
pub fn no_heuristic(_source: Point2d, _target: Point2d) -> (h: u64)
    ensures
        h == 0,
{
    0
}

/// Whether `h` is the estimate of the given kind from `s` to `t`.
pub open spec fn is_estimate(kind: Heuristic, s: Point2d, t: Point2d, h: int) -> bool {
    match kind {
        Heuristic::Manhattan => h == capped(spec_manhattan(s, t)),
        Heuristic::Octal => h == capped(spec_octal(s, t)),
        Heuristic::Euclidean => is_isqrt(h, spec_euclid_sq(s, t)),
        Heuristic::Zero => h == 0,
    }
}

/// The estimate of the given kind from `s` to `t`, the one value that
/// `is_estimate` admits.
pub open spec fn estimate_value(kind: Heuristic, s: Point2d, t: Point2d) -> int {
    match kind {
        Heuristic::Manhattan => capped(spec_manhattan(s, t)),
        Heuristic::Octal => capped(spec_octal(s, t)),
        Heuristic::Euclidean => choose|h: int| is_isqrt(h, spec_euclid_sq(s, t)),
        Heuristic::Zero => 0,
    }
}

/// Every estimate is the estimate value.
pub proof fn lemma_estimate_value(kind: Heuristic, s: Point2d, t: Point2d, h: int)
    requires
        is_estimate(kind, s, t, h),
    ensures
        h == estimate_value(kind, s, t),
{
    if kind == Heuristic::Euclidean {
        let n = spec_euclid_sq(s, t);
        let c = choose|r: int| is_isqrt(r, n);
        assert(is_isqrt(h, n));
        crate::laws::law_isqrt_unique(c, h, n);
    }
}

/// What each kind of estimate is, in coordinate distances `dx`, `dy` with
/// `lo` the smaller and `hi` the larger: Manhattan `dx + dy` straight steps,
/// octal `lo` diagonal and `hi - lo` straight steps, none 0, each capped to
/// the cost type. Both are symmetric, and the octal estimate is at most the
/// Manhattan one, strictly less when both distances are non-zero and the
/// Manhattan estimate is not capped.
pub proof fn law_estimate_kinds(s: Point2d, t: Point2d)
    ensures
        ({
            let dx = dist(s.x as int, t.x as int);
            let dy = dist(s.y as int, t.y as int);
            let lo = if dx <= dy {
                dx
            } else {
                dy
            };
            let hi = dx + dy - lo;
            &&& estimate_value(Heuristic::Manhattan, s, t) == capped((dx + dy) * STRAIGHT_COST)
            &&& estimate_value(Heuristic::Octal, s, t) == capped((hi - lo) * STRAIGHT_COST + lo
                * DIAGONAL_COST)
            &&& estimate_value(Heuristic::Zero, s, t) == 0
            &&& estimate_value(Heuristic::Octal, s, t) <= estimate_value(Heuristic::Manhattan, s, t)
            &&& dx > 0 && dy > 0 && (dx + dy) * STRAIGHT_COST <= u64::MAX ==> estimate_value(
                Heuristic::Octal,
                s,
                t,
            ) < estimate_value(Heuristic::Manhattan, s, t)
            &&& estimate_value(Heuristic::Manhattan, s, t) == estimate_value(
                Heuristic::Manhattan,
                t,
                s,
            )
            &&& estimate_value(Heuristic::Octal, s, t) == estimate_value(Heuristic::Octal, t, s)
        }),
{
    let dx = dist(s.x as int, t.x as int);
    let dy = dist(s.y as int, t.y as int);
    let lo = if dx <= dy {
        dx
    } else {
        dy
    };
    let hi = dx + dy - lo;
    let o = spec_octal(s, t);
    assert(o == (hi - lo) * STRAIGHT_COST + lo * DIAGONAL_COST) by (nonlinear_arith)
        requires
            o == (dx + dy) * STRAIGHT_COST - (2 * STRAIGHT_COST - DIAGONAL_COST) * lo,
            hi == dx + dy - lo,
    ;
    assert(o + lo * (2 * STRAIGHT_COST - DIAGONAL_COST) == (dx + dy) * STRAIGHT_COST)
        by (nonlinear_arith)
        requires
            o == (dx + dy) * STRAIGHT_COST - (2 * STRAIGHT_COST - DIAGONAL_COST) * lo,
    ;
    assert(0 <= lo * (2 * STRAIGHT_COST - DIAGONAL_COST)) by (nonlinear_arith)
        requires
            0 <= lo,
    ;
    assert(dx > 0 && dy > 0 ==> 0 < lo * (2 * STRAIGHT_COST - DIAGONAL_COST)) by (nonlinear_arith)
        requires
            lo == dx || lo == dy,
            0 <= lo,
    ;
    assert(spec_octal(s, t) == spec_octal(t, s));
}

/// The straight-line estimate is the integer square root of the squared
/// distance in cost units: the `r` whose square is at most that and whose
/// successor's square exceeds it.
pub proof fn law_euclid_estimate(s: Point2d, t: Point2d, r: int)
    requires
        0 <= r,
        r * r <= ((s.x - t.x) * (s.x - t.x) + (s.y - t.y) * (s.y - t.y)) * (STRAIGHT_COST
            * STRAIGHT_COST),
        ((s.x - t.x) * (s.x - t.x) + (s.y - t.y) * (s.y - t.y)) * (STRAIGHT_COST * STRAIGHT_COST)
            < (r + 1) * (r + 1),
    ensures
        estimate_value(Heuristic::Euclidean, s, t) == r,
{
    lemma_estimate_value(Heuristic::Euclidean, s, t, r);
}

/// The inputs on which an estimate of the given kind is computed without
/// overflow.
pub open spec fn estimate_fits(kind: Heuristic, s: Point2d, t: Point2d) -> bool {
    match kind {
        Heuristic::Manhattan => steps_fit(s, t),
        Heuristic::Euclidean => euclid_fits(s, t),
        _ => true,
    }
}

/// Whether two byte strings are equal.
fn bytes_eq(a: &[u8], b: &[u8]) -> (r: bool)
    ensures
        r == (a@ == b@),
{
    if a.len() != b.len() {
        return false;
    }
    let mut i: usize = 0;
    while i < a.len()
        invariant
            a@.len() == b@.len(),
            i <= a@.len(),
            forall|j: int| 0 <= j < i ==> a@[j] == b@[j],
        decreases a@.len() - i,
    {
        if a[i] != b[i] {
            return false;
        }
        i = i + 1;
    }
    assert(a@ =~= b@);
    true
}

/// Whether a string is the given literal.
fn str_is(name: &str, lit: &str) -> (r: bool)
    ensures
        r == (name@ == lit@),
{
    let r = bytes_eq(name.as_bytes(), lit.as_bytes());
    proof {
        vstd::utf8::encode_utf8_decode_utf8(name@);
        vstd::utf8::encode_utf8_decode_utf8(lit@);
    }
    r
}

impl Heuristic {
    /// The heuristic named `manhattan`, `octal`, `euclidean` or `none`; any
    /// other name selects the straight-line estimate.
    pub fn from_name(name: &str) -> (h: Heuristic)
        ensures
            h == (if name@ == "manhattan"@ {
                Heuristic::Manhattan
            } else if name@ == "octal"@ {
                Heuristic::Octal
            } else if name@ == "none"@ {
                Heuristic::Zero
            } else {
                Heuristic::Euclidean
            }),
    {
        proof {
            reveal_strlit("manhattan");
            reveal_strlit("octal");
            reveal_strlit("none");
            reveal_strlit("euclidean");
            assert("euclidean"@[0] != "manhattan"@[0]);
            assert("euclidean"@.len() != "octal"@.len());
        }
        if str_is(name, "manhattan") {
            Heuristic::Manhattan
        } else if str_is(name, "octal") {
            Heuristic::Octal
        } else if str_is(name, "euclidean") {
            Heuristic::Euclidean
        } else if str_is(name, "none") {
            Heuristic::Zero
        } else {
            Heuristic::Euclidean
        }
    }

    /// The estimate of this kind from `source` to `target`.
    pub fn estimate(self, source: Point2d, target: Point2d) -> (h: u64)
        requires
            estimate_fits(self, source, target),
        ensures
            is_estimate(self, source, target, h as int),
            h == estimate_value(self, source, target),
            self == Heuristic::Manhattan ==> h == capped(
                (dist(source.x as int, target.x as int) + dist(source.y as int, target.y as int))
                    * STRAIGHT_COST,
            ),
            self == Heuristic::Octal ==> h == capped(spec_octal(source, target)),
            self == Heuristic::Euclidean ==> is_isqrt(h as int, spec_euclid_sq(source, target)),
            self == Heuristic::Zero ==> h == 0,
    {
        let h = match self {
            Heuristic::Manhattan => manhattan_heuristic(source, target),
            Heuristic::Octal => octal_heuristic(source, target),
            Heuristic::Euclidean => euclidean_heuristic(source, target),
            Heuristic::Zero => no_heuristic(source, target),
        };
        proof {
            lemma_estimate_value(self, source, target, h as int);
        }
        h
    }
}

} // verus!
