use vstd::prelude::*;

use crate::plan::{
    carry, lemma_area_even, lemma_area_odd, lemma_motion_sums, lemma_push_sums, running_total,
    shift, total,
};
use crate::spaceship::{
    abs_fits, abs_i32, fits, iabs, imax, pos_at, pyramid_area, sign, sign_i32, state_at,
    surrogate_cost_with_velocity, vel_at, velocity_cost, velocity_cost_fits, xs, ys,
};

verus! {

/// Estimated number of steps from `curpt` with velocity `curv` to `endpt`,
/// through `midpt` unless it has been passed already.
pub open spec fn additional_estimate(
    curpt: (i32, i32),
    curv: (i32, i32),
    passed_midpt: bool,
    midpt: (i32, i32),
    endpt: (i32, i32),
) -> int {
    if passed_midpt {
        velocity_cost(curpt, curv, endpt)
    } else {
        velocity_cost(curpt, curv, midpt) + velocity_cost(midpt, curv, endpt)
    }
}

/// Estimated number of steps from `curpt` with velocity `curv` to `endpt`,
/// through `midpt` unless `passed_midpt`.
pub fn calc_additional_estimate(
    curpt: (i32, i32),
    curv: (i32, i32),
    passed_midpt: bool,
    midpt: (i32, i32),
    endpt: (i32, i32),
) -> (r: i32)
    requires
        passed_midpt ==> velocity_cost_fits(curpt, curv, endpt),
        !passed_midpt ==> {
            &&& velocity_cost_fits(curpt, curv, midpt)
            &&& velocity_cost_fits(midpt, curv, endpt)
            &&& fits(velocity_cost(curpt, curv, midpt) + velocity_cost(midpt, curv, endpt))
        },
    ensures
        r == additional_estimate(curpt, curv, passed_midpt, midpt, endpt),
{
    if passed_midpt {
        surrogate_cost_with_velocity(curpt, curv, endpt)
    } else {
        surrogate_cost_with_velocity(curpt, curv, midpt) + surrogate_cost_with_velocity(
            midpt,
            curv,
            endpt,
        )
    }
}

/// The difference `p2 - p1`.
pub fn delta(p2: (i32, i32), p1: (i32, i32)) -> (r: (i32, i32))
    requires
        fits(p2.0 - p1.0),
        fits(p2.1 - p1.1),
    ensures
        r.0 == p2.0 - p1.0,
        r.1 == p2.1 - p1.1,
{
    (p2.0 - p1.0, p2.1 - p1.1)
}

// ---------------------------------------------------------------------------
// Rest-to-rest moves along one axis
// ---------------------------------------------------------------------------

/// `k` is the least pyramid size that covers the distance `d > 0` from rest to
/// rest (in `k + 1` steps): the least `k >= 1` whose pyramid area reaches `d`.
pub open spec fn is_stop_steps(d: int, k: int) -> bool {
    &&& 1 <= k
    &&& d <= pyramid_area(k)
    &&& forall|j: int| 1 <= j < k ==> #[trigger] pyramid_area(j) < d
}

/// The least pyramid size for the distance `d` from rest to rest.
pub open spec fn stop_steps(d: int) -> int {
    choose|k: int| #[trigger] is_stop_steps(d, k)
}

/// Computing the pyramid area of `k` steps stays within `i32`.
pub open spec fn area_fits(k: int) -> bool {
    &&& fits(k + 1)
    &&& fits((k + 1) / 2 * (k + 1))
    &&& fits(k / 2 + 1)
    &&& fits((k / 2) * (k / 2 + 1))
}

/// `k` steps reach the distance `d`, and computing the areas up to `k` stays
/// within `i32`.
pub open spec fn stop_steps_fit(d: int, k: int) -> bool {
    &&& 1 <= k
    &&& d <= pyramid_area(k)
    &&& forall|j: int| 1 <= j <= k ==> #[trigger] area_fits(j)
}

/// Thrust `j` of the rest-to-rest profile for the pyramid of size `k`
/// (`k + 1` steps): accelerate for the first half, idle once in the middle
/// when `k` is even, decelerate for the second half.
pub open spec fn rest_base(j: int, k: int) -> int {
    let m = (k + 1) / 2;
    if j < m {
        1
    } else if k % 2 == 0 && j == m {
        0
    } else {
        -1
    }
}

/// The rest-to-rest profile over the distance `d` for the pyramid of size `k`
/// (`k + 1` steps): the basic
/// profile, with the area beyond `d` removed by moving one unit of thrust from
/// the middle of the acceleration to its end.
pub open spec fn rest_profile(k: int, d: int) -> Seq<i32> {
    let m = (k + 1) / 2;
    let r = pyramid_area(k) - d;
    Seq::new((k + 1) as nat, |j: int| (rest_base(j, k) + carry(j, m - r, r)) as i32)
}

/// The thrusts `a`, negated.
pub open spec fn negated(a: Seq<i32>) -> Seq<i32> {
    Seq::new(a.len(), |j: int| (-a[j]) as i32)
}

/// The thrusts that move from `px` at rest to `nx` at rest along one axis in
/// the least number of steps.
pub open spec fn fallback_plan(px: int, nx: int) -> Seq<i32> {
    let d = iabs(nx - px);
    if d == 0 {
        Seq::empty()
    } else {
        let p = rest_profile(stop_steps(d), d);
        if nx - px < 0 {
            negated(p)
        } else {
            p
        }
    }
}

proof fn lemma_stop_steps(d: int, k: int)
    requires
        is_stop_steps(d, k),
    ensures
        stop_steps(d) == k,
{
    let c = stop_steps(d);
    assert(is_stop_steps(d, c));
    if c < k {
        assert(pyramid_area(c) < d);
    } else if k < c {
        assert(pyramid_area(k) < d);
    }
}

proof fn lemma_negated_sums(a: Seq<i32>)
    requires
        forall|j: int| 0 <= j < a.len() ==> -2 <= #[trigger] a[j] <= 2,
    ensures
        total(negated(a)) == -total(a),
        running_total(negated(a)) == -running_total(a),
    decreases a.len(),
{
    if a.len() > 0 {
        assert(negated(a).drop_last() =~= negated(a.drop_last()));
        lemma_negated_sums(a.drop_last());
    }
}

/// The pyramid area of `k` steps.
fn fallback_area(k: i32) -> (x: i32)
    requires
        1 <= k,
        area_fits(k as int),
    ensures
        x == pyramid_area(k as int),
{
    if k % 2 != 0 {
        let m = (k + 1) / 2;
        proof {
            lemma_area_odd(m - 1);
            assert(2 * (m - 1) + 1 == k);
            assert(m * (k + 1) == 2 * (m * m)) by (nonlinear_arith)
                requires
                    k + 1 == 2 * m,
            ;
            vstd::arithmetic::div_mod::lemma_div_multiples_vanish_fancy(m * m, 0, 2);
            assert(m * m >= 0) by (nonlinear_arith);
        }
        (k + 1) / 2 * (k + 1) / 2
    } else {
        proof {
            lemma_area_even(k / 2);
            assert(m_nonneg(k / 2));
        }
        (k / 2) * (k / 2 + 1)
    }
}

spec fn m_nonneg(m: int) -> bool {
    m >= 0
}

/// Thrusts along one axis that move from `px` at rest to `nx` at rest in the
/// least number of steps.
#[verifier::rlimit(60)]
pub fn solve_fallback_singleaxis(px: i32, nx: i32) -> (r: Vec<i32>)
    requires
        abs_fits(nx - px),
        nx != px ==> exists|k: int| #[trigger] stop_steps_fit(iabs(nx - px), k),
    ensures
        r@ == fallback_plan(px as int, nx as int),
        forall|j: int| 0 <= j < r.len() ==> -1 <= #[trigger] r@[j] <= 1,
        vel_at(0, r@, r.len() as nat) == 0,
        pos_at(0, 0, r@, r.len() as nat) == nx - px,
{
    let s = sign_i32(nx - px);
    let d = abs_i32(nx - px);
    if d == 0 {
        let r: Vec<i32> = Vec::new();
        proof {
            lemma_motion_sums(0, 0, r@, 0);
        }
        return r;
    }
    let ghost gd = d as int;
    let ghost w = choose|k: int| #[trigger] stop_steps_fit(gd, k);
    let mut k: i32 = 1;
    assert(area_fits(1));
    let mut x = fallback_area(k);
    while d > x
        invariant
            1 <= k <= w,
            stop_steps_fit(gd, w),
            d == gd,
            x == pyramid_area(k as int),
            forall|j: int| 1 <= j < k ==> #[trigger] pyramid_area(j) < gd,
        decreases w - k,
    {
        assert(k != w);
        assert(area_fits(k + 1));
        k = k + 1;
        x = fallback_area(k);
    }
    let ghost gk = k as int;
    assert(area_fits(gk));
    proof {
        assert(is_stop_steps(gd, gk));
        lemma_stop_steps(gd, gk);
    }
    let m = if k % 2 != 0 {
        (k + 1) / 2
    } else {
        k / 2
    };
    let ghost gm = m as int;
    assert(gm == (gk + 1) / 2);
    let rr = x - d;
    // the surplus area is below one row of the pyramid
    proof {
        if gk == 1 {
            assert(pyramid_area(1) == 1) by {
                assert(4int / 4 == 1);
            }
        } else if gk % 2 != 0 {
            lemma_area_odd(gm - 1);
            lemma_area_even(gm - 1);
            assert(pyramid_area(gk - 1) < gd);
            assert(2 * (gm - 1) == gk - 1);
            assert(gm * gm - (gm - 1) * gm == gm) by (nonlinear_arith);
        } else {
            lemma_area_odd(gm - 1);
            lemma_area_even(gm);
            assert(pyramid_area(gk - 1) < gd);
            assert(2 * (gm - 1) + 1 == gk - 1);
            assert(gm * (gm + 1) - gm * gm == gm) by (nonlinear_arith);
        }
        assert(0 <= rr < gm);
    }
    let mut p: Vec<i32> = Vec::new();
    let mut i: i32 = 0;
    assert(total(p@) == 0 && running_total(p@) == 0);
    assert(i * (i + 1) == 0) by (nonlinear_arith)
        requires
            i == 0,
    ;
    while i < m
        invariant
            0 <= i <= gm,
            gm == m,
            p.len() == i,
            forall|j: int| 0 <= j < i ==> p@[j] == 1,
            total(p@) == i,
            2 * running_total(p@) == i * (i + 1),
        decreases gm - i,
    {
        proof {
            lemma_push_sums(p@, 1i32);
            assert((i + 1) * (i + 2) == i * (i + 1) + 2 * i + 2) by (nonlinear_arith);
        }
        p.push(1);
        i = i + 1;
    }
    let even = k % 2 == 0;
    let ghost e: int = if even {
        1
    } else {
        0
    };
    if even {
        proof {
            lemma_push_sums(p@, 0i32);
        }
        p.push(0);
    }
    assert(2 * running_total(p@) == gm * (gm + 1) + 2 * gm * e) by (nonlinear_arith)
        requires
            e == 0 ==> 2 * running_total(p@) == gm * (gm + 1),
            e == 1 ==> 2 * running_total(p@) == gm * (gm + 1) + 2 * gm,
            e == 0 || e == 1,
    ;
    let ghost r0 = gm * (gm + 1) + 2 * gm * e;
    let mut i: i32 = 0;
    while i < m
        invariant
            0 <= i <= gm,
            gm == m,
            0 <= e <= 1,
            p.len() == gm + e + i,
            forall|j: int| 0 <= j < gm ==> p@[j] == 1,
            e == 1 ==> p@[gm] == 0,
            forall|j: int| gm + e <= j < gm + e + i ==> p@[j] == -1,
            total(p@) == gm - i,
            2 * running_total(p@) == r0 + 2 * gm * i - i * (i + 1),
        decreases gm - i,
    {
        proof {
            lemma_push_sums(p@, -1i32);
            assert(2 * gm * (i + 1) - (i + 1) * (i + 2) == 2 * gm * i - i * (i + 1) + 2 * gm - 2
                * i - 2) by (nonlinear_arith);
        }
        p.push(-1);
        i = i + 1;
    }
    assert(gk == 2 * gm - 1 + e);
    assert(2 * running_total(p@) == 2 * pyramid_area(gk)) by {
        if e == 0 {
            lemma_area_odd(gm - 1);
            assert(2 * (gm - 1) + 1 == gk);
            assert(gm * (gm + 1) + 2 * gm * 0 + 2 * gm * gm - gm * (gm + 1) == 2 * (gm * gm)) by (
            nonlinear_arith);
        } else {
            lemma_area_even(gm);
            assert(2 * gm == gk);
            assert(gm * (gm + 1) + 2 * gm * 1 + 2 * gm * gm - gm * (gm + 1) == 2 * (gm * (gm
                + 1))) by (nonlinear_arith);
        }
    }
    let mut i: i32 = 0;
    while i < rr
        invariant
            0 <= i <= rr,
            0 <= rr < gm,
            gm == m,
            p.len() == gk + 1,
            gk == 2 * gm - 1 + e,
            0 <= e <= 1,
            e == 1 <==> gk % 2 == 0,
            forall|j: int|
                0 <= j <= gk ==> #[trigger] p@[j] == rest_base(j, gk) + carry(j, gm - i, i as int),
            total(p@) == 0,
            running_total(p@) == pyramid_area(gk) - i,
        decreases rr - i,
    {
        let at = (m - 1 - i) as usize;
        assert(p@[at as int] == rest_base(at as int, gk) + carry(at as int, gm - i, i as int));
        assert(p@[at + 1] == rest_base(at + 1, gk) + carry(at + 1, gm - i, i as int));
        shift(&mut p, at);
        i = i + 1;
        assert forall|j: int| 0 <= j <= gk implies #[trigger] p@[j] == rest_base(j, gk) + carry(
            j,
            gm - i,
            i as int,
        ) by {}
    }
    assert(p@ =~= rest_profile(gk, gd));
    assert(running_total(p@) == gd);
    proof {
        assert(p@.take(gk + 1) =~= p@);
        lemma_motion_sums(0, 0, p@, (gk + 1) as nat);
    }
    if s < 0 {
        let mut q: Vec<i32> = Vec::new();
        let mut i: usize = 0;
        while i < p.len()
            invariant
                i <= p.len(),
                p.len() == gk + 1,
                forall|j: int| 0 <= j <= gk ==> -1 <= #[trigger] p@[j] <= 1,
                q@ =~= negated(p@.take(i as int)),
            decreases p.len() - i,
        {
            assert(-1 <= p@[i as int] <= 1);
            q.push(-p[i]);
            i = i + 1;
            assert(q@ =~= negated(p@.take(i as int)));
        }
        proof {
            assert(p@.take(gk + 1) =~= p@);
            lemma_negated_sums(p@);
            assert(q@.take(gk + 1) =~= q@);
            lemma_motion_sums(0, 0, q@, (gk + 1) as nat);
        }
        return q;
    }
    p
}

/// `a` padded with zero thrusts to length `n`.
pub open spec fn padded(a: Seq<i32>, n: int) -> Seq<i32> {
    Seq::new(imax(a.len() as int, n) as nat, |j: int| if j < a.len() { a[j] } else { 0i32 })
}

/// A single-axis rest-to-rest move between `p` and `q` can be planned.
pub open spec fn fallback_ok(p: int, q: int) -> bool {
    &&& abs_fits(q - p)
    &&& q != p ==> exists|k: int| #[trigger] stop_steps_fit(iabs(q - p), k)
}

/// Thrusts that move from `curp` at rest to `endpt` at rest: the single-axis
/// moves, the shorter one padded with idle steps.
pub fn solve_fallback(curp: (i32, i32), endpt: (i32, i32)) -> (r: Vec<(i32, i32)>)
    requires
        fallback_ok(curp.0 as int, endpt.0 as int),
        fallback_ok(curp.1 as int, endpt.1 as int),
    ensures
        ({
            let a0 = fallback_plan(curp.0 as int, endpt.0 as int);
            let a1 = fallback_plan(curp.1 as int, endpt.1 as int);
            let n = imax(a0.len() as int, a1.len() as int);
            &&& r.len() == n
            &&& xs(r@) == padded(a0, n)
            &&& ys(r@) == padded(a1, n)
        }),
        state_at(curp, (0, 0), r@, r.len() as nat) == (
            (endpt.0 as int, endpt.1 as int),
            (0int, 0int),
        ),
{
    let mut ax0plan = solve_fallback_singleaxis(curp.0, endpt.0);
    let mut ax1plan = solve_fallback_singleaxis(curp.1, endpt.1);
    let ghost a0 = ax0plan@;
    let ghost a1 = ax1plan@;
    let targetlen = if ax0plan.len() >= ax1plan.len() {
        ax0plan.len()
    } else {
        ax1plan.len()
    };
    proof {
        assert(a0.take(a0.len() as int) =~= a0);
        assert(a1.take(a1.len() as int) =~= a1);
        lemma_motion_sums(0, 0, a0, a0.len());
        lemma_motion_sums(0, 0, a1, a1.len());
    }
    while ax0plan.len() < targetlen
        invariant
            a0.len() <= ax0plan.len() <= targetlen,
            ax0plan@ =~= padded(a0, ax0plan.len() as int),
            total(ax0plan@) == 0,
            running_total(ax0plan@) == endpt.0 - curp.0,
        decreases targetlen - ax0plan.len(),
    {
        proof {
            lemma_push_sums(ax0plan@, 0i32);
        }
        ax0plan.push(0);
    }
    while ax1plan.len() < targetlen
        invariant
            a1.len() <= ax1plan.len() <= targetlen,
            ax1plan@ =~= padded(a1, ax1plan.len() as int),
            total(ax1plan@) == 0,
            running_total(ax1plan@) == endpt.1 - curp.1,
        decreases targetlen - ax1plan.len(),
    {
        proof {
            lemma_push_sums(ax1plan@, 0i32);
        }
        ax1plan.push(0);
    }
    let mut r: Vec<(i32, i32)> = Vec::new();
    let mut i: usize = 0;
    while i < targetlen
        invariant
            ax0plan.len() == targetlen,
            ax1plan.len() == targetlen,
            i <= targetlen,
            r.len() == i,
            forall|j: int| 0 <= j < i ==> #[trigger] r@[j] == (ax0plan@[j], ax1plan@[j]),
        decreases targetlen - i,
    {
        r.push((ax0plan[i], ax1plan[i]));
        i = i + 1;
    }
    proof {
        let n = targetlen as nat;
        assert(xs(r@) =~= ax0plan@);
        assert(ys(r@) =~= ax1plan@);
        assert(ax0plan@.take(n as int) =~= ax0plan@);
        assert(ax1plan@.take(n as int) =~= ax1plan@);
        lemma_motion_sums(curp.0 as int, 0, ax0plan@, n);
        lemma_motion_sums(curp.1 as int, 0, ax1plan@, n);
    }
    r
}

/// A distance of at most a billion is covered by the pyramid of size 65534,
/// whose areas up to there are computed within `i32`.
proof fn lemma_short_distance(d: int)
    requires
        0 < d <= 1_000_000_000,
    ensures
        stop_steps_fit(d, 65534),
{
    assert(pyramid_area(65534) == 1073709056);
    assert forall|j: int| 1 <= j <= 65534 implies #[trigger] area_fits(j) by {
        assert(0 <= (j + 1) / 2 <= 32767);
        assert(0 <= (j + 1) / 2 * (j + 1) <= 32767 * 65535) by (nonlinear_arith)
            requires
                0 <= (j + 1) / 2 <= 32767,
                0 <= j + 1 <= 65535,
        ;
        assert(0 <= j / 2 <= 32767);
        assert(0 <= (j / 2) * (j / 2 + 1) <= 32767 * 32768) by (nonlinear_arith)
            requires
                0 <= j / 2 <= 32767,
        ;
    }
}

/// `fallback_ok` holds of distances of at most a billion.
proof fn lemma_fallback_ok(p: int, q: int)
    requires
        -1_000_000_000 <= q - p <= 1_000_000_000,
    ensures
        fallback_ok(p, q),
{
    if q != p {
        lemma_short_distance(iabs(q - p));
    }
}

/// `solve_fallback_singleaxis` for distances of at most a billion; `None`
/// for a longer one.
pub fn solve_fallback_singleaxis_checked(px: i32, nx: i32) -> (r: Option<Vec<i32>>)
    ensures
        match r {
            Some(v) => -1_000_000_000 <= nx - px <= 1_000_000_000 && v@ == fallback_plan(px as int, nx as int),
            None => !(-1_000_000_000 <= nx - px <= 1_000_000_000),
        },
{
    let d = nx as i64 - px as i64;
    if d < -1_000_000_000 || d > 1_000_000_000 {
        return None;
    }
    proof {
        lemma_fallback_ok(px as int, nx as int);
    }
    Some(solve_fallback_singleaxis(px, nx))
}

/// `solve_fallback` when both axis distances are at most a billion; `None`
/// otherwise.
pub fn solve_fallback_checked(curp: (i32, i32), endpt: (i32, i32)) -> (r: Option<Vec<(i32, i32)>>)
    ensures
        match r {
            Some(v) => {
                &&& -1_000_000_000 <= endpt.0 - curp.0 <= 1_000_000_000
                &&& -1_000_000_000 <= endpt.1 - curp.1 <= 1_000_000_000
                &&& state_at(curp, (0, 0), v@, v.len() as nat) == (
                    (endpt.0 as int, endpt.1 as int),
                    (0int, 0int),
                )
                &&& v.len() == imax(
                    fallback_plan(curp.0 as int, endpt.0 as int).len() as int,
                    fallback_plan(curp.1 as int, endpt.1 as int).len() as int,
                )
                &&& xs(v@) == padded(fallback_plan(curp.0 as int, endpt.0 as int), v.len() as int)
                &&& ys(v@) == padded(fallback_plan(curp.1 as int, endpt.1 as int), v.len() as int)
            },
            None => !(-1_000_000_000 <= endpt.0 - curp.0 <= 1_000_000_000) || !(-1_000_000_000 <= endpt.1
                - curp.1 <= 1_000_000_000),
        },
{
    let dx = endpt.0 as i64 - curp.0 as i64;
    let dy = endpt.1 as i64 - curp.1 as i64;
    if dx < -1_000_000_000 || dx > 1_000_000_000 || dy < -1_000_000_000 || dy > 1_000_000_000 {
        return None;
    }
    proof {
        lemma_fallback_ok(curp.0 as int, endpt.0 as int);
        lemma_fallback_ok(curp.1 as int, endpt.1 as int);
    }
    Some(solve_fallback(curp, endpt))
}

} // verus!
