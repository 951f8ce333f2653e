//! Local improvement of a route through three points: the velocity at the
//! middle point that makes the two legs shortest in time, each leg judged by
//! the one-axis velocity ranges.
use vstd::prelude::*;

use crate::spaceship::{fits, get_available_vrange, in_range, vrange, vrange_fits};

verus! {

/// Along both axes, moving by `d` from velocity `v` in `t` steps can end with
/// velocity `w`.
pub open spec fn admits(d: (int, int), v: (int, int), w: (int, int), t: int) -> bool {
    &&& vrange(d.0, v.0, t) matches Some(r) && r.0 <= w.0 <= r.1
    &&& vrange(d.1, v.1, t) matches Some(r) && r.0 <= w.1 <= r.1
}

/// The difference `b - a` of two points.
pub open spec fn diff(b: (i32, i32), a: (i32, i32)) -> (int, int) {
    (b.0 - a.0, b.1 - a.1)
}

/// The two legs `p1, v1 -> p2, v2` in `t1` steps and `p2, v2 -> p3, v3` in
/// `t2` steps are both possible.
pub open spec fn legs_ok(
    p1: (i32, i32),
    v1: (i32, i32),
    p2: (i32, i32),
    p3: (i32, i32),
    v3: (i32, i32),
    v2: (int, int),
    t1: int,
    t2: int,
) -> bool {
    &&& 0 <= t1
    &&& 0 <= t2
    &&& admits(diff(p2, p1), (v1.0 as int, v1.1 as int), v2, t1)
    &&& admits(diff(p3, p2), v2, (v3.0 as int, v3.1 as int), t2)
}

/// The range arithmetic of every leg tried within `total` steps stays in
/// `i32`.
pub open spec fn resolve_fits(p1: (i32, i32), v1: (i32, i32), p2: (i32, i32), p3: (i32, i32), total: int) -> bool {
    let d1 = diff(p2, p1);
    let d2 = diff(p3, p2);
    &&& total <= i32::MAX
    &&& fits(d1.0) && fits(d1.1) && fits(d2.0) && fits(d2.1)
    &&& forall|t1: int|
        0 <= t1 < total ==> #[trigger] vrange_fits(d1.0, v1.0 as int, t1) && vrange_fits(d1.1, v1.1 as int, t1)
    &&& forall|t1: int, w: int, t2: int|
        #![trigger vrange(d1.0, v1.0 as int, t1), vrange_fits(d2.0, w, t2)]
        0 <= t1 < total && 0 <= t2 < total - t1 && (vrange(d1.0, v1.0 as int, t1) matches Some(r) && r.0 <= w
            <= r.1) ==> vrange_fits(d2.0, w, t2)
    &&& forall|t1: int, w: int, t2: int|
        #![trigger vrange(d1.1, v1.1 as int, t1), vrange_fits(d2.1, w, t2)]
        0 <= t1 < total && 0 <= t2 < total - t1 && (vrange(d1.1, v1.1 as int, t1) matches Some(r) && r.0 <= w
            <= r.1) ==> vrange_fits(d2.1, w, t2)
}

/// The velocity `v2` at `p2` and the step counts `t1`, `t2` of the two legs
/// that make `t1 + t2` least, if it is less than `curtotlen`: `None` when no
/// pair of legs is shorter.
pub fn local_opt_resovle3pt(
    p1: (i32, i32),
    v1: (i32, i32),
    p2: (i32, i32),
    p3: (i32, i32),
    v3: (i32, i32),
    curtotlen: usize,
) -> (r: Option<((i32, i32), usize, usize)>)
    requires
        resolve_fits(p1, v1, p2, p3, curtotlen as int),
    ensures
        match r {
            Some((v2, t1, t2)) => {
                &&& t1 + t2 < curtotlen
                &&& legs_ok(p1, v1, p2, p3, v3, (v2.0 as int, v2.1 as int), t1 as int, t2 as int)
                &&& forall|w: (int, int), a: int, b: int|
                    #[trigger] legs_ok(p1, v1, p2, p3, v3, w, a, b) ==> t1 + t2 <= a + b
            },
            None => forall|w: (int, int), a: int, b: int|
                #[trigger] legs_ok(p1, v1, p2, p3, v3, w, a, b) ==> a + b >= curtotlen,
        },
{
    let dx1 = p2.0 - p1.0;
    let dy1 = p2.1 - p1.1;
    let dx2 = p3.0 - p2.0;
    let dy2 = p3.1 - p2.1;
    let mut ret_time = curtotlen;
    let mut ret: Option<((i32, i32), usize, usize)> = None;
    let mut t1: usize = 0;
    while t1 < curtotlen
        invariant
            resolve_fits(p1, v1, p2, p3, curtotlen as int),
            dx1 == p2.0 - p1.0,
            dy1 == p2.1 - p1.1,
            dx2 == p3.0 - p2.0,
            dy2 == p3.1 - p2.1,
            t1 <= curtotlen,
            ret_time <= curtotlen,
            match ret {
                Some((v2, a, b)) => a + b == ret_time && a + b < curtotlen && legs_ok(
                    p1,
                    v1,
                    p2,
                    p3,
                    v3,
                    (v2.0 as int, v2.1 as int),
                    a as int,
                    b as int,
                ),
                None => ret_time == curtotlen,
            },
            forall|w: (int, int), a: int, b: int|
                #[trigger] legs_ok(p1, v1, p2, p3, v3, w, a, b) && a < t1 ==> a + b >= ret_time,
        decreases curtotlen - t1,
    {
        assert(vrange_fits(dx1 as int, v1.0 as int, t1 as int));
        let xvr = get_available_vrange(dx1, v1.0, t1 as i32);
        let yvr = get_available_vrange(dy1, v1.1, t1 as i32);
        match (xvr, yvr) {
            (Some(xr), Some(yr)) => {
                let mut vx: i64 = xr.0 as i64;
                while vx <= xr.1 as i64
                    invariant
                        resolve_fits(p1, v1, p2, p3, curtotlen as int),
                        dx1 == p2.0 - p1.0,
                        dy1 == p2.1 - p1.1,
                        dx2 == p3.0 - p2.0,
                        dy2 == p3.1 - p2.1,
                        t1 < curtotlen,
                        vrange(dx1 as int, v1.0 as int, t1 as int) == Some((xr.0 as int, xr.1 as int)),
                        vrange(dy1 as int, v1.1 as int, t1 as int) == Some((yr.0 as int, yr.1 as int)),
                        xr.0 <= vx,
                        ret_time <= curtotlen,
                        match ret {
                            Some((v2, a, b)) => a + b == ret_time && a + b < curtotlen && legs_ok(
                                p1,
                                v1,
                                p2,
                                p3,
                                v3,
                                (v2.0 as int, v2.1 as int),
                                a as int,
                                b as int,
                            ),
                            None => ret_time == curtotlen,
                        },
                        forall|w: (int, int), a: int, b: int|
                            #[trigger] legs_ok(p1, v1, p2, p3, v3, w, a, b) && (a < t1 || (a == t1 && w.0
                                < vx)) ==> a + b >= ret_time,
                    decreases xr.1 - vx + 1,
                {
                    let mut vy: i64 = yr.0 as i64;
                    while vy <= yr.1 as i64
                        invariant
                            resolve_fits(p1, v1, p2, p3, curtotlen as int),
                            dx1 == p2.0 - p1.0,
                            dy1 == p2.1 - p1.1,
                            dx2 == p3.0 - p2.0,
                            dy2 == p3.1 - p2.1,
                            t1 < curtotlen,
                            vrange(dx1 as int, v1.0 as int, t1 as int) == Some((xr.0 as int, xr.1 as int)),
                            vrange(dy1 as int, v1.1 as int, t1 as int) == Some((yr.0 as int, yr.1 as int)),
                            xr.0 <= vx <= xr.1,
                            yr.0 <= vy,
                            ret_time <= curtotlen,
                            match ret {
                                Some((v2, a, b)) => a + b == ret_time && a + b < curtotlen && legs_ok(
                                    p1,
                                    v1,
                                    p2,
                                    p3,
                                    v3,
                                    (v2.0 as int, v2.1 as int),
                                    a as int,
                                    b as int,
                                ),
                                None => ret_time == curtotlen,
                            },
                            forall|w: (int, int), a: int, b: int|
                                #[trigger] legs_ok(p1, v1, p2, p3, v3, w, a, b) && (a < t1 || (a == t1 && (w.0
                                    < vx || (w.0 == vx && w.1 < vy)))) ==> a + b >= ret_time,
                        decreases yr.1 - vy + 1,
                    {
                        let mut t2: usize = 0;
                        while t2 < curtotlen - t1
                            invariant
                                resolve_fits(p1, v1, p2, p3, curtotlen as int),
                                dx1 == p2.0 - p1.0,
                                dy1 == p2.1 - p1.1,
                                dx2 == p3.0 - p2.0,
                                dy2 == p3.1 - p2.1,
                                t1 < curtotlen,
                                vrange(dx1 as int, v1.0 as int, t1 as int) == Some((xr.0 as int, xr.1 as int)),
                                vrange(dy1 as int, v1.1 as int, t1 as int) == Some((yr.0 as int, yr.1 as int)),
                                xr.0 <= vx <= xr.1,
                                yr.0 <= vy <= yr.1,
                                t2 <= curtotlen - t1,
                                ret_time <= curtotlen,
                                match ret {
                                    Some((v2, a, b)) => a + b == ret_time && a + b < curtotlen && legs_ok(
                                        p1,
                                        v1,
                                        p2,
                                        p3,
                                        v3,
                                        (v2.0 as int, v2.1 as int),
                                        a as int,
                                        b as int,
                                    ),
                                    None => ret_time == curtotlen,
                                },
                                forall|w: (int, int), a: int, b: int|
                                    #[trigger] legs_ok(p1, v1, p2, p3, v3, w, a, b) && (a < t1 || (a == t1 && (w.0
                                        < vx || (w.0 == vx && w.1 < vy)))) ==> a + b >= ret_time,
                                forall|b: int|
                                    #[trigger] legs_ok(p1, v1, p2, p3, v3, (vx as int, vy as int), t1 as int, b)
                                        && b < t2 ==> t1 + b >= ret_time,
                            ensures
                                forall|b: int|
                                    #[trigger] legs_ok(p1, v1, p2, p3, v3, (vx as int, vy as int), t1 as int, b)
                                        ==> t1 + b >= ret_time,
                            decreases curtotlen - t1 - t2,
                        {
                            if t1 + t2 >= ret_time {
                                break;
                            }
                            assert(vrange_fits(dx2 as int, vx as int, t2 as int));
                            assert(vrange_fits(dy2 as int, vy as int, t2 as int));
                            let xvr2 = get_available_vrange(dx2, vx as i32, t2 as i32);
                            let yvr2 = get_available_vrange(dy2, vy as i32, t2 as i32);
                            match (xvr2, yvr2) {
                                (Some(xr2), Some(yr2)) => {
                                    if in_range(v3.0, xr2) && in_range(v3.1, yr2) {
                                        ret_time = t1 + t2;
                                        ret = Some(((vx as i32, vy as i32), t1, t2));
                                    }
                                },
                                _ => {},
                            }
                            t2 = t2 + 1;
                        }
                        vy = vy + 1;
                    }
                    vx = vx + 1;
                }
            },
            _ => {},
        }
        t1 = t1 + 1;
    }
    ret
}

} // verus!
