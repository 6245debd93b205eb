use crate::cost::{
    dist, is_isqrt, spec_euclid_sq, spec_manhattan, spec_octal, DIAGONAL_COST, STRAIGHT_COST,
};
use crate::direction::{dir_at, wrap8, Direction};
use crate::point::Point2d;
use crate::queue::{is_first_min, JumpPoint};
use vstd::std_specs::cmp::{PartialEqSpec, PartialOrdSpec};
use vstd::prelude::*;

verus! {

/// A valid direction is recovered from its code, and every code in `2..=9`
/// is the code of the direction it decodes to.
pub proof fn law_code_round_trip(d: Direction, v: u8)
    requires
        d.is_valid(),
        2 <= v <= 9,
    ensures
        dir_at(d.code() - 2) == d,
        2 <= d.code() <= 9,
        dir_at(v - 2).is_valid(),
        dir_at(v - 2).code() == v,
{
}

/// Decoding a code in reverse gives the opposite direction, which is the
/// direction turned by 180 degrees.
pub proof fn law_reverse_is_opposite(v: u8)
    requires
        2 <= v <= 9,
    ensures
        dir_at(v - 2).negated() == dir_at(v - 2).turned(4),
        dir_at(v - 2).negated().is_valid(),
{
}

/// A left turn undoes a right turn and the other way round.
pub proof fn law_left_right_inverse(d: Direction)
    requires
        d.is_valid(),
    ensures
        d.turned(2).turned(-2) == d,
        d.turned(-2).turned(2) == d,
        d.turned(1).turned(-1) == d,
        d.turned(-1).turned(1) == d,
{
}

/// Two 45 degree turns make a 90 degree turn, a 90 and a 45 degree turn
/// make a 135 degree turn, and four 90 degree turns come back round.
pub proof fn law_turns_compose(d: Direction)
    requires
        d.is_valid(),
    ensures
        d.turned(1).turned(1) == d.turned(2),
        d.turned(-1).turned(-1) == d.turned(-2),
        d.turned(2).turned(1) == d.turned(3),
        d.turned(-2).turned(-1) == d.turned(-3),
        d.turned(2).turned(2).turned(2).turned(2) == d,
{
}

/// A 90 degree turn keeps a direction diagonal or straight; a 45 or 135
/// degree turn switches it.
pub proof fn law_turn_diagonality(d: Direction)
    requires
        d.is_valid(),
    ensures
        d.turned(2).spec_is_diagonal() == d.spec_is_diagonal(),
        d.turned(-2).spec_is_diagonal() == d.spec_is_diagonal(),
        d.turned(1).spec_is_diagonal() != d.spec_is_diagonal(),
        d.turned(-1).spec_is_diagonal() != d.spec_is_diagonal(),
        d.turned(3).spec_is_diagonal() != d.spec_is_diagonal(),
        d.turned(-3).spec_is_diagonal() != d.spec_is_diagonal(),
{
}

/// The distance between two coordinates does not depend on their order.
pub proof fn law_dist_symmetric(a: int, b: int)
    ensures
        dist(a, b) == dist(b, a),
        dist(a, b) >= 0,
        dist(a, b) == 0 <==> a == b,
{
}

/// The estimates are ordered: none is at most the straight-line estimate,
/// which is at most the octal estimate, which is at most the Manhattan
/// estimate; and all are symmetric in their two points.
pub proof fn law_estimates_ordered(s: Point2d, t: Point2d, e: int)
    requires
        is_isqrt(e, spec_euclid_sq(s, t)),
    ensures
        0 <= e,
        e <= spec_octal(s, t),
        spec_octal(s, t) <= spec_manhattan(s, t),
        spec_octal(s, t) == spec_octal(t, s),
        spec_manhattan(s, t) == spec_manhattan(t, s),
        spec_euclid_sq(s, t) == spec_euclid_sq(t, s),
{
    let dx = dist(s.x as int, t.x as int);
    let dy = dist(s.y as int, t.y as int);
    let (hi, lo) = if dx <= dy {
        (dy, dx)
    } else {
        (dx, dy)
    };
    let u = STRAIGHT_COST as int;
    let dg = DIAGONAL_COST as int;
    let o = spec_octal(s, t);
    assert(o == hi * u + (dg - u) * lo) by (nonlinear_arith)
        requires
            o == (dx + dy) * u - (2 * u - dg) * lo,
            hi + lo == dx + dy,
    ;
    assert(dx * dx == (s.x - t.x) * (s.x - t.x)) by (nonlinear_arith)
        requires
            dx == s.x - t.x || dx == t.x - s.x,
    ;
    assert(dy * dy == (s.y - t.y) * (s.y - t.y)) by (nonlinear_arith)
        requires
            dy == s.y - t.y || dy == t.y - s.y,
    ;
    assert(spec_euclid_sq(s, t) == (hi * hi + lo * lo) * (u * u)) by (nonlinear_arith)
        requires
            spec_euclid_sq(s, t) == ((s.x - t.x) * (s.x - t.x) + (s.y - t.y) * (s.y - t.y)) * (u
                * u),
            dx * dx == (s.x - t.x) * (s.x - t.x),
            dy * dy == (s.y - t.y) * (s.y - t.y),
            hi * hi + lo * lo == dx * dx + dy * dy,
    {
    }
    assert(spec_euclid_sq(s, t) <= o * o) by (nonlinear_arith)
        requires
            spec_euclid_sq(s, t) == (hi * hi + lo * lo) * (u * u),
            o == hi * u + (dg - u) * lo,
            0 <= lo <= hi,
            u == 1_000_000,
            dg == 1_414_214,
    ;
    assert(spec_euclid_sq(s, t) == spec_euclid_sq(t, s)) by (nonlinear_arith)
        requires
            spec_euclid_sq(s, t) == ((s.x - t.x) * (s.x - t.x) + (s.y - t.y) * (s.y - t.y)) * (u
                * u),
            spec_euclid_sq(t, s) == ((t.x - s.x) * (t.x - s.x) + (t.y - s.y) * (t.y - s.y)) * (u
                * u),
    ;
    assert(e <= o) by (nonlinear_arith)
        requires
            e * e <= spec_euclid_sq(s, t),
            spec_euclid_sq(s, t) <= o * o,
            0 <= e,
            0 <= o,
    ;
}

/// The integer square root is unique, so the straight-line estimate is
/// determined by its two points.
pub proof fn law_isqrt_unique(r1: int, r2: int, n: int)
    requires
        is_isqrt(r1, n),
        is_isqrt(r2, n),
    ensures
        r1 == r2,
{
    if r1 < r2 {
        assert((r1 + 1) * (r1 + 1) <= r2 * r2) by (nonlinear_arith)
            requires
                0 <= r1 < r2,
        ;
    } else if r2 < r1 {
        assert((r2 + 1) * (r2 + 1) <= r1 * r1) by (nonlinear_arith)
            requires
                0 <= r2 < r1,
        ;
    }
}

/// The queue hands out a jump point that ranks highest among those queued
/// under the jump points' ordering (smallest estimate ranks highest), as a
/// max-first binary heap would.
pub proof fn law_pop_ranks_highest(s: Seq<JumpPoint>, i: int)
    requires
        is_first_min(s, i),
    ensures
        forall|j: int|
            0 <= j < s.len() ==> (#[trigger] s[j]).partial_cmp_spec(&s[i]) matches Some(
                core::cmp::Ordering::Less | core::cmp::Ordering::Equal,
            ),
{
}

/// The queue's choice is determined: of the queued jump points it is one of
/// least total estimate, earlier ones all have a larger estimate, and no
/// other position qualifies.
pub proof fn law_first_min_unique(s: Seq<JumpPoint>, i: int, j: int)
    requires
        is_first_min(s, i),
    ensures
        forall|m: int| 0 <= m < s.len() ==> s[i].total_cost_estimate <= (#[trigger] s[m]).total_cost_estimate,
        forall|m: int| 0 <= m < i ==> s[i].total_cost_estimate < (#[trigger] s[m]).total_cost_estimate,
        is_first_min(s, j) ==> i == j,
{
    if is_first_min(s, j) && i != j {
        if i < j {
            assert(s[j].total_cost_estimate < s[i].total_cost_estimate);
        } else {
            assert(s[i].total_cost_estimate < s[j].total_cost_estimate);
        }
    }
}

/// Jump points compare by total estimate alone, reversed, and in step with
/// their equality: equal estimates compare equal (and the points are equal),
/// a larger estimate compares less, a smaller one greater, and swapping the
/// two swaps less and greater.
pub proof fn law_jump_point_order(a: JumpPoint, b: JumpPoint)
    ensures
        (a.partial_cmp_spec(&b) == Some(core::cmp::Ordering::Equal)) == (a.total_cost_estimate
            == b.total_cost_estimate),
        (a.partial_cmp_spec(&b) == Some(core::cmp::Ordering::Less)) == (b.total_cost_estimate
            < a.total_cost_estimate),
        (a.partial_cmp_spec(&b) == Some(core::cmp::Ordering::Greater)) == (a.total_cost_estimate
            < b.total_cost_estimate),
        a.eq_spec(&b) == (a.partial_cmp_spec(&b) == Some(core::cmp::Ordering::Equal)),
        (a.partial_cmp_spec(&b) == Some(core::cmp::Ordering::Less)) == (b.partial_cmp_spec(&a)
            == Some(core::cmp::Ordering::Greater)),
        a.partial_cmp_spec(&b) is Some,
{
}

} // verus!
