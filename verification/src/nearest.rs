//! Spaceship routes that fly to the nearest point not yet visited: each leg
//! takes as many steps as a binary search finds enough, and the thrusts of
//! each axis are placed greedily, the earliest covering the most distance.
use vstd::prelude::*;
use rand::seq::SliceRandom;

use crate::beamsearch::key_digit;
use crate::spaceship::{iabs, sign};
use crate::text::string_of;

verus! {

/// The most steps a leg may take.
pub const MAX_LEG: i64 = 1_000_000;

/// `1 + 2 + ... + m`: the distance that `m` steps of thrust along one axis
/// make up at most.
pub open spec fn tri(m: int) -> int
    decreases m,
{
    if m <= 0 {
        0
    } else {
        tri(m - 1) + m
    }
}

proof fn lemma_tri(m: int)
    requires
        m >= 0,
    ensures
        2 * tri(m) == m * (m + 1),
        tri(m) >= 0,
    decreases m,
{
    if m > 0 {
        lemma_tri(m - 1);
        assert(m * (m + 1) == (m - 1) * m + 2 * m) by (nonlinear_arith);
    }
}

/// In `m` steps from velocity `v`, thrust can make up the offset `d` on both
/// axes.
pub open spec fn reach_ok(d: (int, int), v: (int, int), m: int) -> bool {
    iabs(d.0 - v.0 * m) <= tri(m) && iabs(d.1 - v.1 * m) <= tri(m)
}

/// The step count that the binary search between `lo` (not enough) and `hi`
/// settles on.
pub open spec fn search_steps(d: (int, int), v: (int, int), lo: int, hi: int) -> int
    decreases hi - lo,
{
    if hi - lo <= 1 {
        hi
    } else {
        let m = (lo + hi) / 2;
        if reach_ok(d, v, m) {
            search_steps(d, v, lo, m)
        } else {
            search_steps(d, v, m, hi)
        }
    }
}

/// The offset from `cur` to `to`.
pub open spec fn offset(cur: (int, int), to: (int, int)) -> (int, int) {
    (to.0 - cur.0, to.1 - cur.1)
}

/// The steps of the leg from `cur` with velocity `v` to `to`.
pub open spec fn leg_steps(cur: (int, int), v: (int, int), to: (int, int)) -> int {
    search_steps(offset(cur, to), v, 0, MAX_LEG as int)
}

/// A position or a velocity as integers.
pub open spec fn pt(p: (i64, i64)) -> (int, int) {
    (p.0 as int, p.1 as int)
}

/// Positions that the arithmetic of a leg handles.
pub open spec fn pos_ok(p: (int, int)) -> bool {
    iabs(p.0) <= 0x1000_0000_0000_0000 && iabs(p.1) <= 0x1000_0000_0000_0000
}

/// Velocities that the arithmetic of a leg handles.
pub open spec fn vel_ok(v: (int, int)) -> bool {
    iabs(v.0) <= 0x100_0000_0000 && iabs(v.1) <= 0x100_0000_0000
}

fn abs_i64(x: i64) -> (r: i64)
    requires
        x > i64::MIN,
    ensures
        r == iabs(x as int),
{
    if x < 0 {
        -x
    } else {
        x
    }
}

/// The steps of the leg from `cur` with velocity `v` to `to`: the binary
/// search of `leg_steps`.
fn leg_search(cur: (i64, i64), v: (i64, i64), to: (i64, i64)) -> (r: i64)
    requires
        pos_ok(pt(cur)),
        pos_ok(pt(to)),
        vel_ok(pt(v)),
    ensures
        r == leg_steps(pt(cur), pt(v), pt(to)),
        1 <= r <= MAX_LEG,
{
    let ghost d = offset(pt(cur), pt(to));
    let mut lo: i64 = 0;
    let mut hi: i64 = MAX_LEG;
    while hi - lo > 1
        invariant
            0 <= lo < hi <= MAX_LEG,
            pos_ok(pt(cur)),
            pos_ok(pt(to)),
            vel_ok(pt(v)),
            d == offset(pt(cur), pt(to)),
            search_steps(d, pt(v), lo as int, hi as int) == leg_steps(pt(cur), pt(v), pt(to)),
        decreases hi - lo,
    {
        let m = (lo + hi) / 2;
        assert(iabs(v.0 * m) <= 0x100_0000_0000 * 0x10_0000 && iabs(v.1 * m) <= 0x100_0000_0000 * 0x10_0000)
            by (nonlinear_arith)
            requires
                iabs(v.0 as int) <= 0x100_0000_0000,
                iabs(v.1 as int) <= 0x100_0000_0000,
                0 < m <= 0x10_0000,
        ;
        let dx = to.0 - (cur.0 + v.0 * m);
        let dy = to.1 - (cur.1 + v.1 * m);
        proof {
            lemma_tri(m as int);
            assert(m * (m + 1) <= 0x10_0000 * 0x10_0001) by (nonlinear_arith)
                requires
                    0 < m <= 0x10_0000,
            ;
        }
        let maxd = m * (m + 1) / 2;
        let ok = abs_i64(dx) <= maxd && abs_i64(dy) <= maxd;
        proof {
            assert(maxd == tri(m as int));
            assert(ok == reach_ok(d, pt(v), m as int));
        }
        if ok {
            hi = m;
        } else {
            lo = m;
        }
    }
    hi
}

/// The distances that the thrusts along one axis make up, greedily: each the
/// most of what is left that fits under the previous one (`curm` at first).
pub open spec fn axis_thrusts(d: int, curm: int) -> Seq<int>
    decreases curm,
{
    if d == 0 || curm <= 0 {
        Seq::empty()
    } else {
        let c = if iabs(d) < curm {
            iabs(d)
        } else {
            curm
        };
        seq![c] + axis_thrusts(
            if d > 0 {
                d - c
            } else {
                d + c
            },
            c - 1,
        )
    }
}

/// The thrust along one axis at step `j` of a leg of `t` steps that makes up
/// `d`: a thrust `t - j` steps before the end makes up `t - j`.
pub open spec fn axis_move(d: int, t: int, j: int) -> int {
    if axis_thrusts(d, t).contains(t - j) {
        sign(d)
    } else {
        0
    }
}

/// The distance that thrusts make up by the end: each weighted by the steps
/// left from it.
pub open spec fn moment(a: Seq<i64>) -> int
    decreases a.len(),
{
    if a.len() == 0 {
        0
    } else {
        a[0] * a.len() + moment(a.drop_first())
    }
}

/// The velocity that thrusts add.
pub open spec fn total(a: Seq<i64>) -> int
    decreases a.len(),
{
    if a.len() == 0 {
        0
    } else {
        a[0] + total(a.drop_first())
    }
}

proof fn lemma_moment_update(a: Seq<i64>, p: int, x: i64)
    requires
        0 <= p < a.len(),
    ensures
        moment(a.update(p, x)) == moment(a) + (x - a[p]) * (a.len() - p),
        total(a.update(p, x)) == total(a) + x - a[p],
    decreases p,
{
    let b = a.update(p, x);
    if p == 0 {
        assert(b.drop_first() =~= a.drop_first());
        assert(x * a.len() - a[0] * a.len() == (x - a[0]) * a.len()) by (nonlinear_arith);
    } else {
        assert(b.drop_first() =~= a.drop_first().update(p - 1, x));
        lemma_moment_update(a.drop_first(), p - 1, x);
    }
}

proof fn lemma_moment_zeros(n: nat)
    ensures
        moment(Seq::new(n, |j: int| 0i64)) == 0,
        total(Seq::new(n, |j: int| 0i64)) == 0,
    decreases n,
{
    if n > 0 {
        assert(Seq::new(n, |j: int| 0i64)[0] == 0);
        assert(Seq::new(n, |j: int| 0i64).drop_first() =~= Seq::new((n - 1) as nat, |j: int| 0i64));
        lemma_moment_zeros((n - 1) as nat);
    }
}

proof fn lemma_axis_thrusts_bounded(d: int, curm: int)
    ensures
        forall|i: int| 0 <= i < axis_thrusts(d, curm).len() ==> 1 <= #[trigger] axis_thrusts(d, curm)[i] <= curm,
        axis_thrusts(d, curm).len() <= if curm > 0 {
            curm
        } else {
            0
        },
    decreases curm,
{
    if d != 0 && curm > 0 {
        let c = if iabs(d) < curm {
            iabs(d)
        } else {
            curm
        };
        let nd = if d > 0 {
            d - c
        } else {
            d + c
        };
        lemma_axis_thrusts_bounded(nd, c - 1);
        let r = axis_thrusts(d, curm);
        assert forall|i: int| 0 <= i < r.len() implies 1 <= #[trigger] r[i] <= curm by {
            if i > 0 {
                assert(r[i] == axis_thrusts(nd, c - 1)[i - 1]);
            }
        }
    }
}

/// The thrusts along one axis of a leg of `t` steps that make up `d`, and
/// the velocity they add.
#[verifier::rlimit(100)]
#[verifier::spinoff_prover]
fn axis_plan(d: i64, t: i64) -> (r: (Vec<i64>, i64))
    requires
        1 <= t <= MAX_LEG,
        iabs(d as int) <= tri(t as int),
    ensures
        r.0@ == Seq::new(t as nat, |j: int| axis_move(d as int, t as int, j) as i64),
        r.1 == sign(d as int) * axis_thrusts(d as int, t as int).len(),
        moment(r.0@) == d,
        total(r.0@) == r.1,
{
    let mut a: Vec<i64> = Vec::new();
    let mut k: i64 = 0;
    while k < t
        invariant
            0 <= k <= t,
            a@ == Seq::new(k as nat, |j: int| 0i64),
        decreases t - k,
    {
        a.push(0);
        k = k + 1;
        assert(a@ =~= Seq::new(k as nat, |j: int| 0i64));
    }
    proof {
        lemma_moment_zeros(t as nat);
        lemma_tri(t as int);
        assert(t * (t + 1) <= 0x10_0000 * 0x10_0001) by (nonlinear_arith)
            requires
                0 < t <= 0x10_0000,
        ;
    }
    let s: i64 = if d > 0 {
        1
    } else if d < 0 {
        -1
    } else {
        0
    };
    let ghost mut done: Seq<int> = Seq::empty();
    let mut curm: i64 = t;
    let mut x: i64 = d;
    let mut count: i64 = 0;
    while x != 0
        invariant
            1 <= t <= MAX_LEG,
            a.len() == t,
            0 <= curm <= t,
            s == sign(d as int),
            axis_thrusts(d as int, t as int) == done + axis_thrusts(x as int, curm as int),
            iabs(x as int) <= tri(curm as int),
            iabs(x as int) <= iabs(d as int) <= 0x1_0000_0000_0000,
            d > 0 ==> x >= 0,
            d < 0 ==> x <= 0,
            d == 0 ==> x == 0,
            forall|i: int| 0 <= i < done.len() ==> curm < #[trigger] done[i] <= t,
            forall|j: int|
                0 <= j < t ==> #[trigger] a@[j] == (if done.contains(t - j) {
                    s
                } else {
                    0
                }),
            moment(a@) == d - x,
            total(a@) == count,
            count == s * done.len(),
            done.len() <= t - curm,
        decreases curm,
    {
        proof {
            lemma_tri(curm as int);
        }
        let ax = abs_i64(x);
        let c = if ax < curm {
            ax
        } else {
            curm
        };
        let p = (t - c) as usize;
        proof {
            assert(c >= 1);
            assert(!done.contains(c as int));
            assert(a@[p as int] == 0);
            lemma_moment_update(a@, p as int, s);
            lemma_tri(c - 1);
            if c < curm {
                assert(x - s * c == 0);
            } else {
                lemma_tri(c - 1);
                assert(tri(curm as int) == tri(c - 1) + c);
            }
        }
        let ghost old_a = a@;
        let ghost old_x = x;
        let ghost old_curm = curm;
        a.set(p, s);
        if x > 0 {
            x = x - c;
        } else {
            x = x + c;
        }
        count = count + s;
        proof {
            let nd = done.push(c as int);
            assert(axis_thrusts(old_x as int, old_curm as int) == seq![c as int] + axis_thrusts(x as int, c - 1));
            assert(nd + axis_thrusts(x as int, c - 1) =~= done + (seq![c as int] + axis_thrusts(x as int, c - 1)));
            assert forall|j: int| 0 <= j < t implies #[trigger] a@[j] == (if nd.contains(t - j) {
                s
            } else {
                0
            }) by {
                if j != p {
                    assert(a@[j] == old_a[j]);
                    assert(nd.contains(t - j) == done.contains(t - j)) by {
                        if nd.contains(t - j) {
                            let w = choose|w: int| 0 <= w < nd.len() && nd[w] == t - j;
                            if w < done.len() {
                                assert(done[w] == t - j);
                            }
                        }
                        if done.contains(t - j) {
                            let w = choose|w: int| 0 <= w < done.len() && done[w] == t - j;
                            assert(nd[w] == t - j);
                        }
                    }
                } else {
                    assert(nd[done.len() as int] == c);
                }
            }
            done = nd;
        }
        curm = c - 1;
    }
    proof {
        assert(axis_thrusts(0, curm as int) =~= Seq::<int>::empty());
        assert(done =~= axis_thrusts(d as int, t as int));
        assert(a@ =~= Seq::new(t as nat, |j: int| axis_move(d as int, t as int, j) as i64));
    }
    (a, count)
}

/// Where thrusts `a` take position `p` with velocity `v`: each step adds its
/// thrust to the velocity, then the velocity to the position.
pub open spec fn glide(p: (int, int), v: (int, int), a: Seq<(i64, i64)>) -> ((int, int), (int, int))
    decreases a.len(),
{
    if a.len() == 0 {
        (p, v)
    } else {
        let nv = (v.0 + a[0].0, v.1 + a[0].1);
        glide((p.0 + nv.0, p.1 + nv.1), nv, a.drop_first())
    }
}

/// The thrusts along x.
pub open spec fn xs_of(a: Seq<(i64, i64)>) -> Seq<i64> {
    a.map_values(|m: (i64, i64)| m.0)
}

/// The thrusts along y.
pub open spec fn ys_of(a: Seq<(i64, i64)>) -> Seq<i64> {
    a.map_values(|m: (i64, i64)| m.1)
}

proof fn lemma_glide(p: (int, int), v: (int, int), a: Seq<(i64, i64)>)
    ensures
        glide(p, v, a) == (
            (p.0 + v.0 * a.len() + moment(xs_of(a)), p.1 + v.1 * a.len() + moment(ys_of(a))),
            (v.0 + total(xs_of(a)), v.1 + total(ys_of(a))),
        ),
    decreases a.len(),
{
    if a.len() > 0 {
        let nv = (v.0 + a[0].0, v.1 + a[0].1);
        let np = (p.0 + nv.0, p.1 + nv.1);
        let rest = a.drop_first();
        lemma_glide(np, nv, rest);
        assert(xs_of(a).drop_first() =~= xs_of(rest));
        assert(ys_of(a).drop_first() =~= ys_of(rest));
        let n = a.len() as int;
        let x0 = a[0].0 as int;
        let y0 = a[0].1 as int;
        assert(p.0 + (v.0 + x0) + (v.0 + x0) * (n - 1) == p.0 + v.0 * n + x0 * n) by (nonlinear_arith);
        assert(p.1 + (v.1 + y0) + (v.1 + y0) * (n - 1) == p.1 + v.1 * n + y0 * n) by (nonlinear_arith);
    }
}

/// What thrust still has to make up on each axis after `t` steps of drift
/// from `cur` with velocity `v` toward `to`.
pub open spec fn residue(cur: (int, int), v: (int, int), to: (int, int), t: int) -> (int, int) {
    (to.0 - (cur.0 + v.0 * t), to.1 - (cur.1 + v.1 * t))
}

/// The thrusts of a leg of `t` steps that make up `r`.
pub open spec fn leg_moves(r: (int, int), t: int) -> Seq<(i64, i64)> {
    Seq::new(t as nat, |j: int| (axis_move(r.0, t, j) as i64, axis_move(r.1, t, j) as i64))
}

/// The velocity at the end of a leg of `t` steps from `v` that makes up `r`.
pub open spec fn leg_velocity(v: (int, int), r: (int, int), t: int) -> (int, int) {
    (v.0 + sign(r.0) * axis_thrusts(r.0, t).len(), v.1 + sign(r.1) * axis_thrusts(r.1, t).len())
}

/// The leg from `cur` with velocity `v` to `to` can be flown: the binary
/// search ends on a step count with enough thrust.
pub open spec fn leg_ok(cur: (int, int), v: (int, int), to: (int, int)) -> bool {
    reach_ok(offset(cur, to), v, leg_steps(cur, v, to))
}

/// The steps, the thrusts of each axis and the end velocity of the leg.
fn leg_plan(cur: (i64, i64), v: (i64, i64), to: (i64, i64)) -> (r: (i64, Vec<i64>, Vec<i64>, (i64, i64)))
    requires
        pos_ok(pt(cur)),
        pos_ok(pt(to)),
        vel_ok(pt(v)),
        leg_ok(pt(cur), pt(v), pt(to)),
    ensures
        r.0 == leg_steps(pt(cur), pt(v), pt(to)),
        1 <= r.0 <= MAX_LEG,
        ({
            let res = residue(pt(cur), pt(v), pt(to), r.0 as int);
            &&& r.1@ == Seq::new(r.0 as nat, |j: int| axis_move(res.0, r.0 as int, j) as i64)
            &&& r.2@ == Seq::new(r.0 as nat, |j: int| axis_move(res.1, r.0 as int, j) as i64)
            &&& moment(r.1@) == res.0
            &&& moment(r.2@) == res.1
            &&& pt(r.3) == leg_velocity(pt(v), res, r.0 as int)
            &&& total(r.1@) == r.3.0 - v.0
            &&& total(r.2@) == r.3.1 - v.1
        }),
        iabs(r.3.0 - v.0) <= MAX_LEG,
        iabs(r.3.1 - v.1) <= MAX_LEG,
{
    let t = leg_search(cur, v, to);
    assert(iabs(v.0 * t) <= 0x100_0000_0000 * 0x10_0000 && iabs(v.1 * t) <= 0x100_0000_0000 * 0x10_0000)
        by (nonlinear_arith)
        requires
            iabs(v.0 as int) <= 0x100_0000_0000,
            iabs(v.1 as int) <= 0x100_0000_0000,
            0 < t <= 0x10_0000,
    ;
    let dx = to.0 - (cur.0 + v.0 * t);
    let dy = to.1 - (cur.1 + v.1 * t);
    let (xs, cx) = axis_plan(dx, t);
    let (ys, cy) = axis_plan(dy, t);
    proof {
        lemma_axis_thrusts_bounded(dx as int, t as int);
        lemma_axis_thrusts_bounded(dy as int, t as int);
        let lx = axis_thrusts(dx as int, t as int).len() as int;
        let ly = axis_thrusts(dy as int, t as int).len() as int;
        assert(iabs(cx as int) <= lx) by {
            if dx > 0 {
                assert(cx == lx);
            } else if dx < 0 {
                assert(cx == -lx);
            } else {
                assert(cx == 0);
            }
        }
        assert(iabs(cy as int) <= ly) by {
            if dy > 0 {
                assert(cy == ly);
            } else if dy < 0 {
                assert(cy == -ly);
            } else {
                assert(cy == 0);
            }
        }
    }
    (t, xs, ys, (v.0 + cx, v.1 + cy))
}

/// The steps of the leg from `cur` with velocity `v` to `to`, and the
/// velocity at its end.
pub fn calc_dist(cur: (i64, i64), v: (i64, i64), to: (i64, i64)) -> (r: (i64, (i64, i64)))
    requires
        pos_ok(pt(cur)),
        pos_ok(pt(to)),
        vel_ok(pt(v)),
        leg_ok(pt(cur), pt(v), pt(to)),
    ensures
        r.0 == leg_steps(pt(cur), pt(v), pt(to)),
        pt(r.1) == leg_velocity(pt(v), residue(pt(cur), pt(v), pt(to), r.0 as int), r.0 as int),
{
    let (t, _xs, _ys, nv) = leg_plan(cur, v, to);
    (t, nv)
}

/// The leg from `cur` with velocity `v` to `to`, its thrusts appended to
/// `moves`: its steps and the velocity at its end. The thrusts take `cur`
/// to `to`, arriving with that velocity.
pub fn calc_dist_moves(cur: (i64, i64), v: (i64, i64), to: (i64, i64), moves: &mut Vec<(i64, i64)>) -> (r: (
    i64,
    (i64, i64),
))
    requires
        pos_ok(pt(cur)),
        pos_ok(pt(to)),
        vel_ok(pt(v)),
        leg_ok(pt(cur), pt(v), pt(to)),
    ensures
        r.0 == leg_steps(pt(cur), pt(v), pt(to)),
        pt(r.1) == leg_velocity(pt(v), residue(pt(cur), pt(v), pt(to), r.0 as int), r.0 as int),
        final(moves)@ == old(moves)@ + leg_moves(residue(pt(cur), pt(v), pt(to), r.0 as int), r.0 as int),
        glide(pt(cur), pt(v), leg_moves(residue(pt(cur), pt(v), pt(to), r.0 as int), r.0 as int)) == (
            pt(to),
            pt(r.1),
        ),
        iabs(r.1.0 - v.0) <= MAX_LEG,
        iabs(r.1.1 - v.1) <= MAX_LEG,
{
    let (t, xs, ys, nv) = leg_plan(cur, v, to);
    let ghost res = residue(pt(cur), pt(v), pt(to), t as int);
    let ghost before = moves@;
    let mut j: usize = 0;
    while j < xs.len()
        invariant
            xs.len() == t,
            ys.len() == t,
            j <= t,
            moves@ == before + Seq::new(j as nat, |k: int| (xs@[k], ys@[k])),
        decreases xs.len() - j,
    {
        moves.push((xs[j], ys[j]));
        j = j + 1;
        assert(moves@ =~= before + Seq::new(j as nat, |k: int| (xs@[k], ys@[k])));
    }
    proof {
        let seg = leg_moves(res, t as int);
        assert(seg =~= Seq::new(t as nat, |k: int| (xs@[k], ys@[k])));
        assert(xs_of(seg) =~= xs@);
        assert(ys_of(seg) =~= ys@);
        lemma_glide(pt(cur), pt(v), seg);
    }
    (t, nv)
}

/// The keypad digit of a thrust.
pub fn to_move(m: (i64, i64)) -> (c: char)
    requires
        -1 <= m.0 <= 1,
        -1 <= m.1 <= 1,
    ensures
        c == key_digit(m.0 as int, m.1 as int),
{
    match (m.0, m.1) {
        (-1, -1) => '1',
        (0, -1) => '2',
        (1, -1) => '3',
        (-1, 0) => '4',
        (0, 0) => '5',
        (1, 0) => '6',
        (-1, 1) => '7',
        (0, 1) => '8',
        _ => '9',
    }
}

/// The squared distance between two points.
pub open spec fn sq_dist(a: (int, int), b: (int, int)) -> int {
    (a.0 - b.0) * (a.0 - b.0) + (a.1 - b.1) * (a.1 - b.1)
}

/// Among the first `n` points, the first one not yet visited that is nearer
/// to `cur` than every one before it, with its squared distance; `(0,
/// i64::MAX)` when there is none.
pub open spec fn nearest_upto(ps: Seq<(i64, i64)>, done: Seq<bool>, cur: (int, int), n: int) -> (int, int)
    decreases n,
{
    if n <= 0 {
        (0, i64::MAX as int)
    } else {
        let (bi, bd) = nearest_upto(ps, done, cur, n - 1);
        let d = sq_dist(pt(ps[n - 1]), cur);
        if !done[n - 1] && d < bd {
            (n - 1, d)
        } else {
            (bi, bd)
        }
    }
}

/// The thrusts of `turns` legs from `cur` with velocity `v`, each to the
/// nearest point not yet visited; `None` when a leg cannot be flown.
pub open spec fn nearest_route(ps: Seq<(i64, i64)>, done: Seq<bool>, cur: (int, int), v: (int, int), turns: nat) -> Option<
    Seq<(i64, i64)>,
>
    decreases turns,
{
    if turns == 0 {
        Some(Seq::empty())
    } else {
        let i = nearest_upto(ps, done, cur, ps.len() as int).0;
        let to = pt(ps[i]);
        if !leg_ok(cur, v, to) {
            None
        } else {
            let t = leg_steps(cur, v, to);
            let res = residue(cur, v, to, t);
            match nearest_route(ps, done.update(i, true), to, leg_velocity(v, res, t), (turns - 1) as nat) {
                Some(rest) => Some(leg_moves(res, t) + rest),
                None => None,
            }
        }
    }
}

/// The route from the origin at rest through every point of `ps`, nearest
/// first.
pub open spec fn route_of(ps: Seq<(i64, i64)>) -> Option<Seq<(i64, i64)>> {
    nearest_route(ps, Seq::new(ps.len(), |i: int| false), (0, 0), (0, 0), ps.len())
}

/// `pre` in front of the route `r`, if there is one.
pub open spec fn after(pre: Seq<(i64, i64)>, r: Option<Seq<(i64, i64)>>) -> Option<Seq<(i64, i64)>> {
    match r {
        Some(s) => Some(pre + s),
        None => None,
    }
}

/// Points that the routes handle: coordinates of at most `2^29`.
pub open spec fn points_ok(ps: Seq<(i64, i64)>) -> bool {
    forall|i: int| 0 <= i < ps.len() ==> iabs((#[trigger] ps[i]).0 as int) <= 0x2000_0000 && iabs(ps[i].1 as int) <= 0x2000_0000
}

/// Whether the leg from `cur` with velocity `v` to `to` can be flown.
fn leg_flies(cur: (i64, i64), v: (i64, i64), to: (i64, i64)) -> (b: bool)
    requires
        pos_ok(pt(cur)),
        pos_ok(pt(to)),
        vel_ok(pt(v)),
    ensures
        b == leg_ok(pt(cur), pt(v), pt(to)),
{
    let t = leg_search(cur, v, to);
    assert(iabs(v.0 * t) <= 0x100_0000_0000 * 0x10_0000 && iabs(v.1 * t) <= 0x100_0000_0000 * 0x10_0000)
        by (nonlinear_arith)
        requires
            iabs(v.0 as int) <= 0x100_0000_0000,
            iabs(v.1 as int) <= 0x100_0000_0000,
            0 < t <= 0x10_0000,
    ;
    let dx = to.0 - (cur.0 + v.0 * t);
    let dy = to.1 - (cur.1 + v.1 * t);
    proof {
        lemma_tri(t as int);
        assert(t * (t + 1) <= 0x10_0000 * 0x10_0001) by (nonlinear_arith)
            requires
                0 < t <= 0x10_0000,
        ;
    }
    let maxd = t * (t + 1) / 2;
    abs_i64(dx) <= maxd && abs_i64(dy) <= maxd
}

/// The thrusts of the route from the origin at rest through every point of
/// `ps`, each leg to the nearest point not yet visited (see `route_of`);
/// `None` where a leg cannot be flown.
pub fn route_nearest(ps: &Vec<(i64, i64)>) -> (r: Option<Vec<(i64, i64)>>)
    requires
        ps.len() < 0x8_0000,
        points_ok(ps@),
    ensures
        match r {
            Some(m) => route_of(ps@) == Some(m@),
            None => route_of(ps@) is None,
        },
        r matches Some(m) ==> forall|k: int| 0 <= k < m.len() ==> -1 <= (#[trigger] m@[k]).0 <= 1 && -1 <= m@[k].1 <= 1,
{
    let n = ps.len();
    let mut done: Vec<bool> = Vec::new();
    while done.len() < n
        invariant
            done.len() <= n,
            done@ == Seq::new(done.len() as nat, |i: int| false),
        decreases n - done.len(),
    {
        done.push(false);
        assert(done@ =~= Seq::new(done.len() as nat, |i: int| false));
    }
    let mut cur: (i64, i64) = (0, 0);
    let mut v: (i64, i64) = (0, 0);
    let mut moves: Vec<(i64, i64)> = Vec::new();
    let mut turn: usize = 0;
    assert(moves@ + Seq::<(i64, i64)>::empty() =~= moves@);
    while turn < n
        invariant
            n == ps.len(),
            n < 0x8_0000,
            points_ok(ps@),
            done.len() == n,
            turn <= n,
            iabs(cur.0 as int) <= 0x2000_0000,
            iabs(cur.1 as int) <= 0x2000_0000,
            iabs(v.0 as int) <= turn * MAX_LEG,
            iabs(v.1 as int) <= turn * MAX_LEG,
            after(moves@, nearest_route(ps@, done@, pt(cur), pt(v), (n - turn) as nat)) == route_of(ps@),
            forall|k: int| 0 <= k < moves.len() ==> -1 <= (#[trigger] moves@[k]).0 <= 1 && -1 <= moves@[k].1 <= 1,
        decreases n - turn,
    {
        let mut best: usize = 0;
        let mut bd: i64 = i64::MAX;
        let mut i: usize = 0;
        while i < n
            invariant
                n == ps.len(),
                turn < n,
                points_ok(ps@),
                done.len() == n,
                i <= n,
                best < n,
                iabs(cur.0 as int) <= 0x2000_0000,
                iabs(cur.1 as int) <= 0x2000_0000,
                (best as int, bd as int) == nearest_upto(ps@, done@, pt(cur), i as int),
            decreases n - i,
        {
            if !done[i] {
                let p = ps[i];
                assert(iabs(p.0 as int) <= 0x2000_0000 && iabs(p.1 as int) <= 0x2000_0000);
                let dx = p.0 - cur.0;
                let dy = p.1 - cur.1;
                assert(0 <= dx * dx <= 0x4000_0000 * 0x4000_0000 && 0 <= dy * dy <= 0x4000_0000 * 0x4000_0000)
                    by (nonlinear_arith)
                    requires
                        -0x4000_0000 <= dx <= 0x4000_0000,
                        -0x4000_0000 <= dy <= 0x4000_0000,
                ;
                let d = dx * dx + dy * dy;
                if d < bd {
                    best = i;
                    bd = d;
                }
            }
            i = i + 1;
        }
        let to = ps[best];
        assert(iabs(to.0 as int) <= 0x2000_0000 && iabs(to.1 as int) <= 0x2000_0000);
        if !leg_flies(cur, v, to) {
            return None;
        }
        let ghost old_moves = moves@;
        let ghost old_done = done@;
        let ghost old_cur = pt(cur);
        let ghost old_v = pt(v);
        let (_t, nv) = calc_dist_moves(cur, v, to, &mut moves);
        done.set(best, true);
        cur = to;
        v = nv;
        turn = turn + 1;
        proof {
            let t = leg_steps(old_cur, old_v, pt(to));
            let res = residue(old_cur, old_v, pt(to), t);
            let rest = nearest_route(ps@, done@, pt(cur), pt(v), (n - turn) as nat);
            assert(nearest_route(ps@, old_done, old_cur, old_v, (n - (turn - 1)) as nat) == after(leg_moves(res, t), rest));
            match rest {
                Some(r2) => {
                    assert(old_moves + (leg_moves(res, t) + r2) =~= moves@ + r2);
                },
                None => {},
            }
            assert forall|k: int| 0 <= k < moves.len() implies -1 <= (#[trigger] moves@[k]).0 <= 1 && -1 <= moves@[k].1
                <= 1 by {
                if k >= old_moves.len() {
                    assert(moves@[k] == leg_moves(res, t)[k - old_moves.len()]);
                }
            }
        }
    }
    proof {
        assert(moves@ + Seq::<(i64, i64)>::empty() =~= moves@);
    }
    Some(moves)
}

/// `a` comes before `b`, or is `b`: by x, then by y.
pub open spec fn pt_le(a: (i64, i64), b: (i64, i64)) -> bool {
    a.0 < b.0 || (a.0 == b.0 && a.1 <= b.1)
}

/// `a` comes before `b`: by x, then by y.
pub open spec fn pt_lt(a: (i64, i64), b: (i64, i64)) -> bool {
    a.0 < b.0 || (a.0 == b.0 && a.1 < b.1)
}

/// Sorts the points in increasing order (`slice::sort`, which orders tuples
/// by their first field, then their second): the same points, in that order.
#[verifier::external_body]
fn sort_points(ps: &mut Vec<(i64, i64)>)
    ensures
        final(ps)@.to_multiset() == old(ps)@.to_multiset(),
        forall|i: int, j: int| 0 <= i < j < final(ps).len() ==> pt_le(#[trigger] final(ps)@[i], #[trigger] final(ps)@[j]),
{
    ps.sort();
}

/// Puts the points in a random order (`SliceRandom::shuffle` of `rand`, with
/// the thread's generator): the same points; which order is left to chance.
#[verifier::external_body]
fn shuffle_points(ps: &mut Vec<(i64, i64)>)
    ensures
        final(ps)@.to_multiset() == old(ps)@.to_multiset(),
{
    ps.shuffle(&mut rand::thread_rng());
}

/// `q` holds each point of `ps` once.
pub open spec fn arrangement_of(q: Seq<(i64, i64)>, ps: Seq<(i64, i64)>) -> bool {
    &&& q.no_duplicates()
    &&& forall|x: (i64, i64)| q.contains(x) <==> ps.contains(x)
}

/// The sorted points with each run of equal ones kept once (`Vec::dedup`).
fn dedup_sorted(ps: &Vec<(i64, i64)>) -> (r: Vec<(i64, i64)>)
    requires
        forall|i: int, j: int| 0 <= i < j < ps.len() ==> pt_le(#[trigger] ps@[i], #[trigger] ps@[j]),
    ensures
        forall|i: int, j: int| 0 <= i < j < r.len() ==> pt_lt(#[trigger] r@[i], #[trigger] r@[j]),
        forall|x: (i64, i64)| r@.contains(x) <==> ps@.contains(x),
        r.len() <= ps.len(),
{
    let mut out: Vec<(i64, i64)> = Vec::new();
    let mut i: usize = 0;
    while i < ps.len()
        invariant
            i <= ps.len(),
            out.len() <= i,
            forall|a: int, b: int| 0 <= a < b < ps.len() ==> pt_le(#[trigger] ps@[a], #[trigger] ps@[b]),
            forall|a: int, b: int| 0 <= a < b < out.len() ==> pt_lt(#[trigger] out@[a], #[trigger] out@[b]),
            forall|x: (i64, i64)| out@.contains(x) <==> ps@.take(i as int).contains(x),
            i > 0 ==> out.len() > 0 && out@.last() == ps@[i - 1],
        decreases ps.len() - i,
    {
        let p = ps[i];
        let ghost before = out@;
        if out.len() == 0 || out[out.len() - 1].0 != p.0 || out[out.len() - 1].1 != p.1 {
            proof {
                if i > 0 {
                    assert(pt_le(ps@[i - 1], ps@[i as int]));
                }
            }
            out.push(p);
            proof {
                assert forall|a: int, b: int| 0 <= a < b < out.len() implies pt_lt(#[trigger] out@[a], #[trigger] out@[b]) by {
                    if b == out.len() - 1 && a < b {
                        if a < before.len() - 1 {
                            assert(pt_lt(before[a], before.last()));
                        }
                    } else {
                        assert(out@[a] == before[a] && out@[b] == before[b]);
                    }
                }
            }
        }
        proof {
            assert(ps@.take(i + 1) =~= ps@.take(i as int).push(p));
            assert forall|x: (i64, i64)| out@.contains(x) <==> ps@.take(i + 1).contains(x) by {
                if out@.contains(x) && !before.contains(x) {
                    let w = choose|w: int| 0 <= w < out.len() && out@[w] == x;
                    if w < before.len() {
                        assert(before[w] == x);
                    }
                }
                if before.contains(x) {
                    let w = choose|w: int| 0 <= w < before.len() && before[w] == x;
                    assert(out@[w] == x);
                }
                if ps@.take(i + 1).contains(x) && !ps@.take(i as int).contains(x) {
                    assert(x == p);
                    assert(out@[out.len() - 1] == p);
                }
                if ps@.take(i as int).contains(x) {
                    let w = choose|w: int| 0 <= w < i && ps@.take(i as int)[w] == x;
                    assert(ps@.take(i + 1)[w] == x);
                }
                if x == p {
                    assert(ps@.take(i + 1)[i as int] == p);
                    assert(out@[out.len() - 1] == p);
                }
            }
        }
        i = i + 1;
    }
    assert(ps@.take(ps.len() as int) =~= ps@);
    out
}

/// The keypad digits of the route through the points of `ps`, each once, in
/// a random order with the nearest point not yet visited next: `None` where
/// a leg cannot be flown. Whatever the order, it holds each point once, and
/// the digits are those of its route.
pub fn solve_basic(ps: Vec<(i64, i64)>) -> (r: Option<String>)
    requires
        ps.len() < 0x8_0000,
        points_ok(ps@),
    ensures
        exists|q: Seq<(i64, i64)>|
            #![trigger route_of(q)]
            arrangement_of(q, ps@) && match r {
                Some(s) => route_of(q) matches Some(m) && s@ == m.map_values(
                    |a: (i64, i64)| key_digit(a.0 as int, a.1 as int),
                ),
                None => route_of(q) is None,
            },
{
    let ghost given = ps@;
    let mut sorted = ps;
    sort_points(&mut sorted);
    proof {
        broadcast use vstd::seq_lib::group_to_multiset_ensures;

        assert forall|x: (i64, i64)| sorted@.contains(x) <==> given.contains(x) by {
            assert(sorted@.contains(x) <==> sorted@.to_multiset().count(x) > 0);
            assert(given.contains(x) <==> given.to_multiset().count(x) > 0);
        }
    }
    let mut q = dedup_sorted(&sorted);
    let ghost dq = q@;
    proof {
        assert forall|a: int, b: int| 0 <= a < dq.len() && 0 <= b < dq.len() && a != b implies dq[a] != dq[b] by {
            if a < b {
                assert(pt_lt(dq[a], dq[b]));
            } else {
                assert(pt_lt(dq[b], dq[a]));
            }
        }
        assert(dq.no_duplicates());
        dq.lemma_multiset_has_no_duplicates();
    }
    shuffle_points(&mut q);
    proof {
        broadcast use vstd::seq_lib::group_to_multiset_ensures;

        assert forall|x: (i64, i64)| q@.to_multiset().contains(x) implies q@.to_multiset().count(x) == 1 by {
            assert(dq.to_multiset().count(x) == q@.to_multiset().count(x));
        }
        q@.lemma_multiset_has_no_duplicates_conv();
        assert forall|x: (i64, i64)| q@.contains(x) <==> given.contains(x) by {
            assert(q@.contains(x) <==> q@.to_multiset().count(x) > 0);
            assert(dq.contains(x) <==> dq.to_multiset().count(x) > 0);
            assert(sorted@.contains(x) <==> given.contains(x));
        }
        assert(arrangement_of(q@, given));
        assert(q@.to_multiset().len() == dq.to_multiset().len());
        assert(q@.len() == q@.to_multiset().len());
        assert(dq.len() == dq.to_multiset().len());
        assert(sorted@.len() == sorted@.to_multiset().len());
        assert(given.len() == given.to_multiset().len());
        assert forall|i: int| 0 <= i < q.len() implies iabs((#[trigger] q@[i]).0 as int) <= 0x2000_0000 && iabs(
            q@[i].1 as int,
        ) <= 0x2000_0000 by {
            assert(q@.contains(q@[i]));
            assert(given.contains(q@[i]));
            let w = choose|w: int| 0 <= w < given.len() && given[w] == q@[i];
            assert(iabs(given[w].0 as int) <= 0x2000_0000);
        }
    }
    match route_nearest(&q) {
        None => None,
        Some(moves) => {
            let mut keys: Vec<char> = Vec::new();
            let mut k: usize = 0;
            while k < moves.len()
                invariant
                    k <= moves.len(),
                    forall|j: int| 0 <= j < moves.len() ==> -1 <= (#[trigger] moves@[j]).0 <= 1 && -1 <= moves@[j].1 <= 1,
                    keys@ == moves@.take(k as int).map_values(|a: (i64, i64)| key_digit(a.0 as int, a.1 as int)),
                decreases moves.len() - k,
            {
                let c = to_move(moves[k]);
                keys.push(c);
                k = k + 1;
                assert(keys@ =~= moves@.take(k as int).map_values(|a: (i64, i64)| key_digit(a.0 as int, a.1 as int)));
            }
            assert(moves@.take(moves.len() as int) =~= moves@);
            Some(string_of(&keys))
        },
    }
}

} // verus!
