use vstd::prelude::*;

use crate::spaceship::{abs_fits, abs_i32, fits, iabs, imax, max_i32, sign, sign_i32};

verus! {

/// The Chebyshev distance between two velocities.
pub fn velloss(v1: (i32, i32), v2: (i32, i32)) -> (r: i32)
    requires
        abs_fits(v1.0 - v2.0),
        abs_fits(v1.1 - v2.1),
    ensures
        r == imax(iabs(v1.0 - v2.0), iabs(v1.1 - v2.1)),
{
    max_i32(abs_i32(v1.0 - v2.0), abs_i32(v1.1 - v2.1))
}

/// Estimated number of steps to cover the distance `d` along one axis with
/// velocity `v`, when only a velocity of the same sign as the distance counts
/// as heading there: the distance divided by the speed (at least one), or the
/// distance plus a penalty of `v * v + 1`.
pub open spec fn strict_axis_cost(d: int, v: int) -> int {
    if sign(d) == sign(v) {
        iabs(d) / imax(1, iabs(v))
    } else {
        iabs(d) + v * v + 1
    }
}

/// The arithmetic of `strict_axis_cost` stays within `i32`.
pub open spec fn strict_axis_cost_fits(d: int, v: int) -> bool {
    &&& abs_fits(d)
    &&& abs_fits(v)
    &&& sign(d) != sign(v) ==> iabs(d) + v * v + 1 <= i32::MAX
}

fn strict_axis_cost_i32(d: i32, v: i32) -> (r: i32)
    requires
        strict_axis_cost_fits(d as int, v as int),
    ensures
        r == strict_axis_cost(d as int, v as int),
{
    let ad = abs_i32(d);
    let av = abs_i32(v);
    if sign_i32(d) == sign_i32(v) {
        ad / max_i32(1, av)
    } else {
        assert(av * av == v * v) by (nonlinear_arith)
            requires
                av == iabs(v as int),
        ;
        ad / 1 + (av * av + 1)
    }
}

/// Estimated number of steps from `curpt` with velocity `curv` to `goal`: the
/// larger of the two axis estimates (`strict_axis_cost`).
pub open spec fn strict_velocity_cost(curpt: (i32, i32), curv: (i32, i32), goal: (i32, i32)) -> int {
    imax(
        strict_axis_cost(goal.0 - curpt.0, curv.0 as int),
        strict_axis_cost(goal.1 - curpt.1, curv.1 as int),
    )
}

/// The arithmetic of `strict_velocity_cost` stays within `i32`.
pub open spec fn strict_velocity_cost_fits(
    curpt: (i32, i32),
    curv: (i32, i32),
    goal: (i32, i32),
) -> bool {
    &&& strict_axis_cost_fits(goal.0 - curpt.0, curv.0 as int)
    &&& strict_axis_cost_fits(goal.1 - curpt.1, curv.1 as int)
}

/// Estimated number of steps from `curpt` with velocity `curv` to `goal`.
pub fn surrogate_cost_with_velocity(curpt: (i32, i32), curv: (i32, i32), goal: (i32, i32)) -> (r:
    i32)
    requires
        strict_velocity_cost_fits(curpt, curv, goal),
    ensures
        r == strict_velocity_cost(curpt, curv, goal),
{
    let dx = goal.0 - curpt.0;
    let dy = goal.1 - curpt.1;
    max_i32(strict_axis_cost_i32(dx, curv.0), strict_axis_cost_i32(dy, curv.1))
}

/// Estimated number of steps from `curpt` with velocity `curv` to `endpt`.
pub fn calc_additional_estimate(curpt: (i32, i32), curv: (i32, i32), endpt: (i32, i32)) -> (r:
    i32)
    requires
        strict_velocity_cost_fits(curpt, curv, endpt),
    ensures
        r == strict_velocity_cost(curpt, curv, endpt),
{
    surrogate_cost_with_velocity(curpt, curv, endpt)
}

} // verus!
