use vstd::prelude::*;
use vstd::string::StringSliceAdditionalSpecFns;

use crate::spaceship::{
    decode_thrust_from_keypad, key_thrust, motion_fits, simulate, get_available_vrange, state_at, vrange, vrange_fits, xs, ys, get_oneaxis_available_xs, get_pyramid_area, max_i32, min_i32, available_xs, fits, imax, imin, is_pyramid_size, lemma_area_mono, lemma_area_step, pos_at, pyramid_area, pyramid_size,
    reachable_at, tri, vel_at, xs_fits, encode_thrust_into_keypad, keypad_char, has_key,
};
use crate::text::append_str;

verus! {

// ---------------------------------------------------------------------------
// Sums of thrust sequences
// ---------------------------------------------------------------------------

/// The sum of the thrusts `a`: the change of velocity they cause.
pub open spec fn total(a: Seq<i32>) -> int
    decreases a.len(),
{
    if a.len() == 0 {
        0
    } else {
        total(a.drop_last()) + a.last()
    }
}

/// The sum of the running totals of `a`: the change of position they cause
/// beyond the initial velocity.
pub open spec fn running_total(a: Seq<i32>) -> int
    decreases a.len(),
{
    if a.len() == 0 {
        0
    } else {
        running_total(a.drop_last()) + total(a)
    }
}

pub(crate) proof fn lemma_push_sums(a: Seq<i32>, x: i32)
    ensures
        total(a.push(x)) == total(a) + x,
        running_total(a.push(x)) == running_total(a) + total(a) + x,
{
    assert(a.push(x).drop_last() =~= a);
}

/// Velocity and position after the first `k` thrusts, by the sums.
pub proof fn lemma_motion_sums(p0: int, v0: int, a: Seq<i32>, k: nat)
    requires
        k <= a.len(),
    ensures
        vel_at(v0, a, k) == v0 + total(a.take(k as int)),
        pos_at(p0, v0, a, k) == p0 + v0 * k + running_total(a.take(k as int)),
    decreases k,
{
    if k > 0 {
        lemma_motion_sums(p0, v0, a, (k - 1) as nat);
        assert(a.take(k as int).drop_last() =~= a.take(k - 1));
        assert(v0 * k == v0 * (k - 1) + v0) by (nonlinear_arith);
    } else {
        assert(a.take(0) =~= Seq::<i32>::empty());
    }
}

/// Changing one thrust by `x - a[i]` changes the velocity by as much and the
/// position by that much for each remaining step.
pub(crate) proof fn lemma_update_sums(a: Seq<i32>, i: int, x: i32)
    requires
        0 <= i < a.len(),
    ensures
        total(a.update(i, x)) == total(a) + (x - a[i]),
        running_total(a.update(i, x)) == running_total(a) + (x - a[i]) * (a.len() - i),
    decreases a.len(),
{
    let b = a.update(i, x);
    let d = x - a[i];
    if i == a.len() - 1 {
        assert(b.drop_last() =~= a.drop_last());
        assert(total(b) == total(a) + d);
        assert(d * (a.len() - i) == d) by (nonlinear_arith)
            requires
                a.len() - i == 1,
        ;
        assert(running_total(b) == running_total(b.drop_last()) + total(b));
        assert(running_total(a) == running_total(a.drop_last()) + total(a));
    } else {
        assert(b.drop_last() =~= a.drop_last().update(i, x));
        lemma_update_sums(a.drop_last(), i, x);
        assert(running_total(b) == running_total(b.drop_last()) + total(b));
        assert(running_total(a) == running_total(a.drop_last()) + total(a));
        assert(d * (a.len() - 1 - i) + d == d * (a.len() - i)) by (nonlinear_arith);
    }
}

// ---------------------------------------------------------------------------
// The acceleration profile along one axis
// ---------------------------------------------------------------------------

/// Size of the removed pyramid: how much slower the end velocity is than
/// accelerating all the way.
pub open spec fn plan_p(vinit: int, vend: int, t: int) -> int {
    vinit + t - vend
}

/// Area to remove beyond the pyramid, to stop exactly at `dx`.
pub open spec fn plan_r(dx: int, vinit: int, vend: int, t: int) -> int {
    available_xs(vinit, t).1 - dx - pyramid_area(plan_p(vinit, vend, t))
}

/// Number of accelerations moved from the start to the end.
pub open spec fn plan_n2(dx: int, vinit: int, vend: int, t: int) -> int {
    let p = plan_p(vinit, vend, t);
    if p != 0 {
        plan_r(dx, vinit, vend, t) / p
    } else {
        0
    }
}

/// Area left to remove after moving accelerations.
pub open spec fn plan_rem(dx: int, vinit: int, vend: int, t: int) -> int {
    let p = plan_p(vinit, vend, t);
    if p != 0 {
        plan_r(dx, vinit, vend, t) % p
    } else {
        0
    }
}

/// Number of decelerations.
pub open spec fn plan_d(vinit: int, vend: int, t: int) -> int {
    let p = plan_p(vinit, vend, t);
    p / 2 + p % 2
}

/// Number of initial accelerations.
pub open spec fn plan_n(dx: int, vinit: int, vend: int, t: int) -> int {
    t - plan_d(vinit, vend, t) - plan_n2(dx, vinit, vend, t)
}

/// Thrust `j` of the basic profile: `n` accelerations, `d` decelerations (the
/// first of them idle when `o` is one), then accelerations.
pub open spec fn base_entry(j: int, n: int, d: int, o: int) -> int {
    if j < n {
        1
    } else if j < n + d {
        if o == 1 && j == n {
            0
        } else {
            -1
        }
    } else {
        1
    }
}

/// Moving one unit of thrust from step `from` to step `from + len` (nothing
/// when `len` is zero).
pub open spec fn carry(j: int, from: int, len: int) -> int {
    if len > 0 {
        (if j == from {
            -1int
        } else {
            0int
        }) + (if j == from + len {
            1int
        } else {
            0int
        })
    } else {
        0
    }
}

/// Thrust `j` of the profile with carries of length `f` from step `c1` and of
/// length `s` from step `n - 1`.
pub open spec fn profile_entry(j: int, n: int, d: int, o: int, c1: int, f: int, s: int) -> int {
    base_entry(j, n, d, o) + carry(j, c1, f) + carry(j, n - 1, s)
}

/// The thrusts along one axis that reach `dx` in `t` steps from velocity
/// `vinit` and end with velocity `vend`: the basic profile, with the area left
/// to remove taken away by moving thrust one step later, first inside the
/// deceleration, then from the last initial acceleration.
pub open spec fn accel_plan(dx: int, vinit: int, vend: int, t: int) -> Seq<i32> {
    let p = plan_p(vinit, vend, t);
    let h = p / 2;
    let o = p % 2;
    let n = plan_n(dx, vinit, vend, t);
    let rem = plan_rem(dx, vinit, vend, t);
    Seq::new(
        t as nat,
        |j: int|
            profile_entry(
                j,
                n,
                plan_d(vinit, vend, t),
                o,
                n - 1 + o,
                imin(rem, h),
                imax(rem - h, 0),
            ) as i32,
    )
}

/// `vend` is a velocity with which `dx` can be reached in `t >= 0` steps from
/// `vinit`.
pub open spec fn feasible(dx: int, vinit: int, vend: int, t: int) -> bool {
    let xr = available_xs(vinit, t);
    &&& 0 <= t
    &&& reachable_at(dx, vinit, t)
    &&& vinit + t - pyramid_size(xr.1 - dx) <= vend
    &&& vend <= vinit - t + pyramid_size(dx - xr.0)
}

proof fn lemma_pyramid_size_exists(a: int)
    requires
        0 <= a,
    ensures
        is_pyramid_size(a, pyramid_size(a)),
    decreases a,
{
    if a == 0 {
        assert(pyramid_area(0) == 0) by {
            assert(1int / 4 == 0);
        }
        assert(pyramid_area(1) == 1) by {
            assert(4int / 4 == 1);
        }
        assert(is_pyramid_size(0, 0));
    } else {
        lemma_pyramid_size_exists(a - 1);
        let n = pyramid_size(a - 1);
        if a < pyramid_area(n + 1) {
            assert(is_pyramid_size(a, n));
        } else {
            lemma_area_step(n + 1);
            assert(is_pyramid_size(a, n + 1));
        }
    }
}

pub(crate) proof fn lemma_area_even(k: int)
    ensures
        pyramid_area(2 * k) == k * (k + 1),
{
    let m = k * (k + 1);
    assert((2 * k + 1) * (2 * k + 1) == 4 * m + 1) by (nonlinear_arith)
        requires
            m == k * (k + 1),
    ;
    vstd::arithmetic::div_mod::lemma_div_multiples_vanish_fancy(m, 1, 4);
}

pub(crate) proof fn lemma_area_odd(k: int)
    ensures
        pyramid_area(2 * k + 1) == (k + 1) * (k + 1),
{
    let m = (k + 1) * (k + 1);
    assert((2 * k + 2) * (2 * k + 2) == 4 * m) by (nonlinear_arith)
        requires
            m == (k + 1) * (k + 1),
    ;
    vstd::arithmetic::div_mod::lemma_div_multiples_vanish_fancy(m, 0, 4);
}

proof fn lemma_tri_double(t: int)
    ensures
        tri(t) * 2 == t * (t + 1),
{
    let q = t / 2;
    let r = t % 2;
    vstd::arithmetic::div_mod::lemma_fundamental_div_mod(t, 2);
    vstd::arithmetic::div_mod::lemma_mod_bound(t, 2);
    let k = if r == 0 {
        q * (2 * q + 1)
    } else {
        (2 * q + 1) * (q + 1)
    };
    assert(t * (t + 1) == 2 * k + 0) by (nonlinear_arith)
        requires
            t == 2 * q + r,
            0 <= r <= 1,
            k == (if r == 0 {
                q * (2 * q + 1)
            } else {
                (2 * q + 1) * (q + 1)
            }),
    ;
    vstd::arithmetic::div_mod::lemma_div_multiples_vanish_fancy(k, 0, 2);
}

/// The arithmetic facts behind the profile of a feasible plan.
proof fn lemma_plan_facts(dx: int, vinit: int, vend: int, t: int)
    requires
        feasible(dx, vinit, vend, t),
    ensures
        ({
            let p = plan_p(vinit, vend, t);
            let h = p / 2;
            let o = p % 2;
            let d = plan_d(vinit, vend, t);
            let r = plan_r(dx, vinit, vend, t);
            let n2 = plan_n2(dx, vinit, vend, t);
            let rem = plan_rem(dx, vinit, vend, t);
            let n = plan_n(dx, vinit, vend, t);
            &&& 0 <= p <= 2 * t
            &&& p == 2 * h + o
            &&& 0 <= o <= 1
            &&& d == h + o
            &&& 0 <= r
            &&& r == p * n2 + rem
            &&& 0 <= n2
            &&& 0 <= rem
            &&& (p > 0 ==> rem < p)
            &&& (p == 0 ==> rem == 0 && n2 == 0)
            &&& 0 <= n
            &&& n + d + n2 == t
            &&& (o == 0 && rem >= 1 ==> n >= 1)
            &&& (rem - h >= 1 ==> n >= 1)
            &&& pyramid_area(p) == (if o == 0 {
                h * (h + 1)
            } else {
                (h + 1) * (h + 1)
            })
        }),
{
    let xr = available_xs(vinit, t);
    let u = xr.1 - dx;
    let l = dx - xr.0;
    let p = plan_p(vinit, vend, t);
    let h = p / 2;
    let o = p % 2;
    let d = plan_d(vinit, vend, t);
    let r = plan_r(dx, vinit, vend, t);
    let n2 = plan_n2(dx, vinit, vend, t);
    let rem = plan_rem(dx, vinit, vend, t);
    let n = plan_n(dx, vinit, vend, t);
    lemma_tri_double(t);
    assert(u + l == t * (t + 1));
    lemma_pyramid_size_exists(u);
    lemma_pyramid_size_exists(l);
    let mu = pyramid_size(u);
    let ml = pyramid_size(l);
    // the fastest end velocity needs at most 2t removed
    lemma_area_odd(t);
    assert(t * (t + 1) < (t + 1) * (t + 1)) by (nonlinear_arith)
        requires
            0 <= t,
    ;
    assert(ml <= 2 * t) by {
        if ml > 2 * t {
            lemma_area_mono(2 * t + 1, ml);
        }
    }
    assert(mu <= 2 * t) by {
        if mu > 2 * t {
            lemma_area_mono(2 * t + 1, mu);
        }
    }
    assert(0 <= p <= 2 * t);
    assert(p == 2 * h + o);
    // what is left to remove is not negative
    lemma_area_mono(p, mu);
    assert(0 <= r);
    // and at most what the slowest start leaves
    lemma_area_mono(2 * t - p, ml);
    assert(pyramid_area(2 * t - p) <= l);
    if o == 0 {
        lemma_area_even(h);
        lemma_area_even(t - h);
        assert(2 * t - p == 2 * (t - h));
        assert(t * (t + 1) - (t - h) * (t - h + 1) - h * (h + 1) == p * (t - d)) by (
        nonlinear_arith)
            requires
                p == 2 * h,
                d == h,
        ;
        assert(r <= p * (t - d));
    } else {
        lemma_area_odd(h);
        lemma_area_odd(t - h - 1);
        assert(2 * t - p == 2 * (t - h - 1) + 1);
        assert(t * (t + 1) - (t - h) * (t - h) - (h + 1) * (h + 1) == p * (t - d) + h) by (
        nonlinear_arith)
            requires
                p == 2 * h + 1,
                d == h + 1,
        ;
        assert(r <= p * (t - d) + h);
    }
    if p > 0 {
        vstd::arithmetic::div_mod::lemma_fundamental_div_mod(r, p);
        vstd::arithmetic::div_mod::lemma_mod_pos_bound(r, p);
        assert(r == p * n2 + rem);
        assert(0 <= n2) by (nonlinear_arith)
            requires
                r == p * n2 + rem,
                0 <= r,
                rem < p,
                p > 0,
        ;
        if o == 0 {
            assert(n2 <= t - d) by (nonlinear_arith)
                requires
                    r == p * n2 + rem,
                    r <= p * (t - d),
                    0 <= rem,
                    p > 0,
            ;
            assert(n2 == t - d ==> rem == 0) by (nonlinear_arith)
                requires
                    r == p * n2 + rem,
                    r <= p * (t - d),
                    0 <= rem,
            ;
        } else {
            assert(n2 <= t - d) by (nonlinear_arith)
                requires
                    r == p * n2 + rem,
                    r <= p * (t - d) + h,
                    0 <= rem,
                    p == 2 * h + 1,
                    h >= 0,
            ;
            assert(n2 == t - d ==> rem <= h) by (nonlinear_arith)
                requires
                    r == p * n2 + rem,
                    r <= p * (t - d) + h,
            ;
        }
    } else {
        assert(r == 0);
    }
}

proof fn lemma_profile_area_even(n: int, h: int, n2: int)
    by (nonlinear_arith)
    ensures
        n * (n + 1) + 2 * n * h - h * (h + 1) + 2 * (n - h) * n2 + n2 * (n2 + 1) == (n + h + n2)
            * (n + h + n2 + 1) - 2 * (h * (h + 1)) - 2 * (2 * h) * n2,
{
}

#[verifier::rlimit(50)]
proof fn lemma_profile_area_odd(n: int, d: int, n2: int)
    by (nonlinear_arith)
    ensures
        n * (n + 1) + 2 * n * d - d * (d + 1) + 2 * d + 2 * (n - d + 1) * n2 + n2 * (n2 + 1) == (n
            + d + n2) * (n + d + n2 + 1) - 2 * (d * d) - 2 * (2 * d - 1) * n2,
{
}

/// The profile stays within one unit of thrust per step.
proof fn lemma_profile_bounded(n: int, d: int, o: int, h: int, f: int, s: int, t: int)
    requires
        d == h + o,
        0 <= o <= 1,
        0 <= h,
        0 <= n,
        n + d <= t,
        0 <= f <= h,
        0 <= s,
        f >= 1 && o == 0 ==> n >= 1,
        s >= 1 ==> n >= 1 && f == h,
        o == 0 && s >= 1 ==> s < h,
        o == 1 ==> s <= h,
    ensures
        forall|j: int|
            0 <= j < t ==> -1 <= #[trigger] profile_entry(j, n, d, o, n - 1 + o, f, s) <= 1,
{
}

/// Applies one move of thrust, from step `at` to step `at + 1`.
pub(crate) fn shift(retvec: &mut Vec<i32>, at: usize)
    requires
        at + 1 < old(retvec).len(),
        -2 <= old(retvec)@[at as int] <= 2,
        -2 <= old(retvec)@[at + 1] <= 2,
    ensures
        final(retvec)@ == old(retvec)@.update(at as int, (old(retvec)@[at as int] - 1) as i32).update(
            at + 1,
            (old(retvec)@[at + 1] + 1) as i32,
        ),
        total(final(retvec)@) == total(old(retvec)@),
        running_total(final(retvec)@) == running_total(old(retvec)@) - 1,
{
    let ghost a = retvec@;
    let x = retvec[at];
    retvec.set(at, x - 1);
    proof {
        lemma_update_sums(a, at as int, (x - 1) as i32);
    }
    let ghost b = retvec@;
    let y = retvec[at + 1];
    retvec.set(at + 1, y + 1);
    proof {
        lemma_update_sums(b, at + 1, (y + 1) as i32);
        let la = a.len() - at;
        let lb = b.len() - (at + 1);
        assert(((x - 1) as i32 - a[at as int]) * la == -la) by (nonlinear_arith)
            requires
                x == a[at as int],
                -2 <= x <= 2,
        ;
        assert(((y + 1) as i32 - b[at + 1]) * lb == lb) by (nonlinear_arith)
            requires
                y == b[at + 1],
                -2 <= y <= 2,
        ;
    }
}

/// Thrusts along one axis that reach `dx` in `t` steps from velocity `vinit`
/// and end with velocity `vend` (see `accel_plan`).
#[verifier::rlimit(80)]
pub fn generate_accelerate_seqs(dx: i32, vinit: i32, vend: i32, t: i32) -> (r: Vec<i32>)
    requires
        feasible(dx as int, vinit as int, vend as int, t as int),
        xs_fits(vinit as int, t as int),
        fits(vinit + t),
        fits((plan_p(vinit as int, vend as int, t as int) + 1) * (plan_p(
            vinit as int,
            vend as int,
            t as int,
        ) + 1)),
    ensures
        r@ == accel_plan(dx as int, vinit as int, vend as int, t as int),
        r.len() == t,
        forall|j: int| 0 <= j < r.len() ==> -1 <= #[trigger] r@[j] <= 1,
        vel_at(vinit as int, r@, t as nat) == vend,
        pos_at(0, vinit as int, r@, t as nat) == dx,
{
    let ghost gdx = dx as int;
    let ghost gv = vinit as int;
    let ghost gve = vend as int;
    let ghost gt = t as int;
    proof {
        lemma_plan_facts(gdx, gv, gve, gt);
        lemma_tri_double(gt);
        lemma_area_even(gt);
        lemma_area_mono(plan_p(gv, gve, gt), 2 * gt);
        assert(2 * gt <= gt * (gt + 1)) by (nonlinear_arith)
            requires
                0 <= gt,
        ;
    }
    let pyramid_size = vinit + t - vend;
    let half_pyramid_size = pyramid_size / 2;
    let x_atmost = get_oneaxis_available_xs(vinit, t).1;
    let removed_area = get_pyramid_area(pyramid_size);
    let to_be_removed_area = (x_atmost - removed_area) - dx;
    let area_per_twolines = if pyramid_size % 2 == 0 {
        half_pyramid_size * 2
    } else {
        half_pyramid_size * 2 + 1
    };
    let n_twolines = if area_per_twolines != 0 {
        to_be_removed_area / area_per_twolines
    } else {
        0
    };
    let remainder_remove_twolines = if area_per_twolines != 0 {
        to_be_removed_area % area_per_twolines
    } else {
        0
    };
    let deccel_length = half_pyramid_size + pyramid_size % 2;
    let n_initial_accel = t - deccel_length - n_twolines;
    let odd = pyramid_size % 2;
    let ghost n = n_initial_accel as int;
    let ghost d = deccel_length as int;
    let ghost o = odd as int;
    let ghost n2 = n_twolines as int;
    let ghost rem = remainder_remove_twolines as int;
    let ghost h = half_pyramid_size as int;
    assert(n == plan_n(gdx, gv, gve, gt));
    assert(rem == plan_rem(gdx, gv, gve, gt));
    let mut retvec: Vec<i32> = Vec::new();
    assert(2 * running_total(retvec@) == 0 * (0 + 1));
    let mut i: i32 = 0;
    while i < n_initial_accel
        invariant
            0 <= i <= n,
            n == n_initial_accel,
            retvec.len() == i,
            forall|j: int| 0 <= j < i ==> retvec@[j] == 1,
            total(retvec@) == i,
            2 * running_total(retvec@) == i * (i + 1),
        decreases n - i,
    {
        proof {
            lemma_push_sums(retvec@, 1i32);
            assert((i + 1) * (i + 2) == i * (i + 1) + 2 * i + 2) by (nonlinear_arith);
        }
        retvec.push(1);
        i = i + 1;
    }
    assert(2 * running_total(retvec@) == n * (n + 1) + 2 * n * 0 - 0 * (0 + 1));
    let mut i: i32 = 0;
    while i < deccel_length
        invariant
            0 <= i <= d,
            0 <= n,
            d == deccel_length,
            retvec.len() == n + i,
            forall|j: int| 0 <= j < n ==> retvec@[j] == 1,
            forall|j: int| n <= j < n + i ==> retvec@[j] == -1,
            total(retvec@) == n - i,
            2 * running_total(retvec@) == n * (n + 1) + 2 * n * i - i * (i + 1),
            n + d <= gt,
            gt <= i32::MAX,
        decreases d - i,
    {
        proof {
            lemma_push_sums(retvec@, -1i32);
            assert(2 * n * (i + 1) - (i + 1) * (i + 2) == 2 * n * i - i * (i + 1) + 2 * n - 2 * i
                - 2) by (nonlinear_arith);
        }
        retvec.push(-1);
        i = i + 1;
    }
    assert(2 * running_total(retvec@) == n * (n + 1) + 2 * n * d - d * (d + 1));
    if odd == 1 {
        proof {
            let a = retvec@;
            lemma_update_sums(a, n, 0i32);
            assert(a[n] == -1);
            assert((0i32 - a[n]) * (a.len() - n) == d) by (nonlinear_arith)
                requires
                    a[n] == -1,
                    a.len() == n + d,
            ;
        }
        retvec.set(n_initial_accel as usize, 0);
    }
    let ghost t2 = n - d + o;
    let ghost r2 = n * (n + 1) + 2 * n * d - d * (d + 1) + 2 * o * d;
    assert(2 * o * d == (if o == 1 {
        2 * d
    } else {
        0
    })) by (nonlinear_arith)
        requires
            o == 0 || o == 1,
    ;
    assert(total(retvec@) == t2);
    assert(2 * running_total(retvec@) == r2);
    assert(2 * running_total(retvec@) == r2 + 2 * t2 * 0 + 0 * (0 + 1));
    let mut i: i32 = 0;
    while i < n_twolines
        invariant
            0 <= i <= n2,
            n2 == n_twolines,
            0 <= n,
            0 <= o <= 1,
            retvec.len() == n + d + i,
            forall|j: int| 0 <= j < n + d + i ==> retvec@[j] == base_entry(j, n, d, o),
            total(retvec@) == t2 + i,
            2 * running_total(retvec@) == r2 + 2 * t2 * i + i * (i + 1),
            n + d + n2 == gt,
            gt <= i32::MAX,
        decreases n2 - i,
    {
        proof {
            lemma_push_sums(retvec@, 1i32);
            assert(2 * t2 * (i + 1) + (i + 1) * (i + 2) == 2 * t2 * i + i * (i + 1) + 2 * t2 + 2
                * i + 2) by (nonlinear_arith);
        }
        retvec.push(1);
        i = i + 1;
    }
    let ghost r3 = r2 + 2 * t2 * n2 + n2 * (n2 + 1);
    assert(2 * running_total(retvec@) == r3);
    let remove_first_cycle = min_i32(remainder_remove_twolines, half_pyramid_size);
    let remove_second_cycle = max_i32(remainder_remove_twolines - half_pyramid_size, 0);
    let ghost f = remove_first_cycle as int;
    let ghost sc = remove_second_cycle as int;
    let ghost c1 = n - 1 + o;
    let first_start: i32 = n_initial_accel - 1 + odd;
    let mut i: i32 = 0;
    while i < remove_first_cycle
        invariant
            0 <= i <= f,
            f == remove_first_cycle,
            c1 == first_start,
            c1 == n - 1 + o,
            0 <= o <= 1,
            d == h + o,
            0 <= f <= h,
            f >= 1 && o == 0 ==> n >= 1,
            0 <= n,
            n + d <= gt,
            gt <= i32::MAX,
            retvec.len() == gt,
            forall|j: int| 0 <= j < gt ==> retvec@[j] == profile_entry(j, n, d, o, c1, i as int, 0),
            total(retvec@) == t2 + n2,
            2 * running_total(retvec@) == r3 - 2 * i,
        decreases f - i,
    {
        let at = (first_start + i) as usize;
        assert(retvec@[at as int] == profile_entry(at as int, n, d, o, c1, i as int, 0));
        assert(retvec@[at + 1] == profile_entry(at + 1, n, d, o, c1, i as int, 0));
        shift(&mut retvec, at);
        i = i + 1;
        assert forall|j: int| 0 <= j < gt implies retvec@[j] == profile_entry(
            j,
            n,
            d,
            o,
            c1,
            i as int,
            0,
        ) by {}
    }
    let second_start: i32 = if remove_second_cycle > 0 {
        n_initial_accel - 1
    } else {
        0
    };
    let mut i: i32 = 0;
    while i < remove_second_cycle
        invariant
            0 <= i <= sc,
            sc == remove_second_cycle,
            sc > 0 ==> second_start == n - 1 && n >= 1,
            0 <= o <= 1,
            d == h + o,
            o == 0 && sc >= 1 ==> sc < h,
            o == 1 ==> sc <= h,
            0 <= n,
            n + d <= gt,
            gt <= i32::MAX,
            retvec.len() == gt,
            forall|j: int|
                0 <= j < gt ==> retvec@[j] == profile_entry(j, n, d, o, c1, f, i as int),
            forall|j: int| 0 <= j < gt ==> -2 <= #[trigger] retvec@[j] <= 2,
            total(retvec@) == t2 + n2,
            2 * running_total(retvec@) == r3 - 2 * f - 2 * i,
        decreases sc - i,
    {
        let at = (second_start + i) as usize;
        shift(&mut retvec, at);
        i = i + 1;
        assert forall|j: int| 0 <= j < gt implies retvec@[j] == profile_entry(
            j,
            n,
            d,
            o,
            c1,
            f,
            i as int,
        ) by {}
    }
    proof {
        let pp = plan_p(gv, gve, gt);
        let ar = pyramid_area(pp);
        assert(f + sc == rem);
        if o == 0 {
            lemma_profile_area_even(n, h, n2);
        } else {
            lemma_profile_area_odd(n, d, n2);
            assert(ar == d * d);
            assert(pp == 2 * d - 1);
        }
        assert(r3 == gt * (gt + 1) - 2 * ar - 2 * pp * n2);
        lemma_profile_bounded(n, d, o, h, f, sc, gt);
        assert(retvec@ =~= accel_plan(gdx, gv, gve, gt));
        assert(retvec@.take(gt) =~= retvec@);
        lemma_motion_sums(0, gv, retvec@, gt as nat);
        assert(2 * running_total(retvec@) == r3 - 2 * rem);
        assert(plan_r(gdx, gv, gve, gt) == pp * n2 + rem);
        assert(gdx == available_xs(gv, gt).1 - ar - plan_r(gdx, gv, gve, gt));
        assert(available_xs(gv, gt).1 == gv * gt + tri(gt));
        assert(2 * pp * n2 == 2 * (pp * n2)) by (nonlinear_arith);
        assert(running_total(retvec@) == gdx - gv * gt);
    }
    retvec
}

// ---------------------------------------------------------------------------
// Plans over both axes
// ---------------------------------------------------------------------------

/// `vend` can be planned along one axis: it is feasible, and the arithmetic
/// of the profile stays within `i32`.
pub open spec fn axis_ok(d: int, v: int, vend: int, t: int) -> bool {
    &&& feasible(d, v, vend, t)
    &&& xs_fits(v, t)
    &&& fits(v + t)
    &&& fits((plan_p(v, vend, t) + 1) * (plan_p(v, vend, t) + 1))
}

/// The thrusts that take `curp` with velocity `curv` to `targetp` with
/// velocity `targetv` in `t` steps: the profiles of both axes, step by step.
pub open spec fn visit_thrusts(
    curp: (i32, i32),
    curv: (i32, i32),
    targetp: (i32, i32),
    targetv: (i32, i32),
    t: int,
) -> Seq<(i32, i32)> {
    let xa = accel_plan(targetp.0 - curp.0, curv.0 as int, targetv.0 as int, t);
    let ya = accel_plan(targetp.1 - curp.1, curv.1 as int, targetv.1 as int, t);
    Seq::new(t as nat, |j: int| (xa[j], ya[j]))
}

/// The thrusts that take `curp` with velocity `curv` to `targetp` with
/// velocity `targetv` in `t` steps.
pub fn actualize_visit_plan(
    curp: (i32, i32),
    curv: (i32, i32),
    targetp: (i32, i32),
    targetv: (i32, i32),
    t: i32,
) -> (r: Vec<(i32, i32)>)
    requires
        fits(targetp.0 - curp.0),
        fits(targetp.1 - curp.1),
        axis_ok(targetp.0 - curp.0, curv.0 as int, targetv.0 as int, t as int),
        axis_ok(targetp.1 - curp.1, curv.1 as int, targetv.1 as int, t as int),
    ensures
        r@ == visit_thrusts(curp, curv, targetp, targetv, t as int),
        r.len() == t,
        forall|j: int| 0 <= j < r.len() ==> -1 <= (#[trigger] r@[j]).0 <= 1 && -1 <= r@[j].1 <= 1,
        state_at(curp, curv, r@, t as nat) == (
            (targetp.0 as int, targetp.1 as int),
            (targetv.0 as int, targetv.1 as int),
        ),
{
    let xaccl = generate_accelerate_seqs(targetp.0 - curp.0, curv.0, targetv.0, t);
    let yaccl = generate_accelerate_seqs(targetp.1 - curp.1, curv.1, targetv.1, t);
    let mut r: Vec<(i32, i32)> = Vec::new();
    let mut i: usize = 0;
    while i < xaccl.len()
        invariant
            xaccl.len() == t,
            yaccl.len() == t,
            i <= t,
            r.len() == i,
            forall|j: int| 0 <= j < i ==> #[trigger] r@[j] == (xaccl@[j], yaccl@[j]),
            forall|j: int| 0 <= j < xaccl.len() ==> -1 <= #[trigger] xaccl@[j] <= 1,
            forall|j: int| 0 <= j < yaccl.len() ==> -1 <= #[trigger] yaccl@[j] <= 1,
        decreases xaccl.len() - i,
    {
        r.push((xaccl[i], yaccl[i]));
        i = i + 1;
    }
    proof {
        let gt = t as nat;
        assert(r@ =~= visit_thrusts(curp, curv, targetp, targetv, t as int));
        assert(xs(r@) =~= xaccl@);
        assert(ys(r@) =~= yaccl@);
        lemma_motion_sums(curp.0 as int, curv.0 as int, xaccl@, gt);
        lemma_motion_sums(0, curv.0 as int, xaccl@, gt);
        lemma_motion_sums(curp.1 as int, curv.1 as int, yaccl@, gt);
        lemma_motion_sums(0, curv.1 as int, yaccl@, gt);
    }
    r
}

/// The plans at time `t` for one row: end velocity `vx` horizontally and each
/// of the `ny` vertical end velocities from `ylo`.
pub open spec fn plan_row(t: int, vx: int, ylo: int, ny: nat) -> Seq<(i32, (i32, i32))> {
    Seq::new(ny, |j: int| (t as i32, (vx as i32, (ylo + j) as i32)))
}

/// The plans at time `t` for the `nx` horizontal end velocities from `xlo`,
/// row by row.
pub open spec fn plan_rows(t: int, xlo: int, nx: nat, ylo: int, ny: nat) -> Seq<
    (i32, (i32, i32)),
>
    decreases nx,
{
    if nx == 0 {
        Seq::empty()
    } else {
        plan_rows(t, xlo, (nx - 1) as nat, ylo, ny) + plan_row(t, xlo + nx - 1, ylo, ny)
    }
}

/// The number of values in the inclusive range `r`.
pub open spec fn range_len(r: (int, int)) -> nat {
    imax(0, r.1 - r.0 + 1) as nat
}

/// The plans `(t, (vx, vy))` that reach the relative target `(dx, dy)` in
/// exactly `t` steps from velocity `v`: every pair of feasible end velocities.
pub open spec fn plans_at(dx: int, dy: int, v: (i32, i32), t: int) -> Seq<(i32, (i32, i32))> {
    match (vrange(dx, v.0 as int, t), vrange(dy, v.1 as int, t)) {
        (Some(xr), Some(yr)) => plan_rows(t, xr.0, range_len(xr), yr.0, range_len(yr)),
        _ => Seq::empty(),
    }
}

/// The plans for the times `0 .. n`, by time.
pub open spec fn plans_before(dx: int, dy: int, v: (i32, i32), n: nat) -> Seq<
    (i32, (i32, i32)),
>
    decreases n,
{
    if n == 0 {
        Seq::empty()
    } else {
        plans_before(dx, dy, v, (n - 1) as nat) + plans_at(dx, dy, v, n - 1)
    }
}

/// The arithmetic of planning at time `t` stays within `i32`.
pub open spec fn plan_fits(dx: int, dy: int, v: (i32, i32), t: int) -> bool {
    &&& 0 <= t < i32::MAX
    &&& vrange_fits(dx, v.0 as int, t)
    &&& vrange_fits(dy, v.1 as int, t)
    &&& fits(v.0 + t)
    &&& fits(v.1 + t)
    &&& fits((2 * t + 1) * (2 * t + 1))
    &&& vrange(dx, v.0 as int, t) matches Some(xr) ==> fits(xr.1 + 1)
    &&& vrange(dy, v.1 as int, t) matches Some(yr) ==> fits(yr.1 + 1)
}

/// Enough plans appear in the times `0 .. n`, and planning up to then stays
/// within `i32`.
pub open spec fn plans_suffice(dx: int, dy: int, v: (i32, i32), n: nat, numplan: int) -> bool {
    &&& plans_before(dx, dy, v, n).len() >= numplan
    &&& forall|t: int| 0 <= t < n ==> #[trigger] plan_fits(dx, dy, v, t)
}

proof fn lemma_plans_before_grow(dx: int, dy: int, v: (i32, i32), m: nat, n: nat)
    requires
        m <= n,
    ensures
        plans_before(dx, dy, v, m).len() <= plans_before(dx, dy, v, n).len(),
    decreases n,
{
    if m < n {
        lemma_plans_before_grow(dx, dy, v, m, (n - 1) as nat);
    }
}

/// Whether `vrange_fits(dx, v, t)` holds, for `t >= 0`.
fn vrange_fits_check(dx: i32, v: i32, t: i32) -> (r: bool)
    requires
        0 <= t,
    ensures
        r == vrange_fits(dx as int, v as int, t as int),
{
    if !crate::spaceship::xs_fits_check(v, t) {
        return false;
    }
    let xr = get_oneaxis_available_xs(v, t);
    if dx < xr.0 || dx > xr.1 {
        return true;
    }
    let a1 = xr.1 as i64 - dx as i64;
    let a2 = dx as i64 - xr.0 as i64;
    let lo = i32::MIN as i64;
    let hi = i32::MAX as i64;
    let vt1 = v as i64 + t as i64;
    let vt2 = v as i64 - t as i64;
    if 4 * a1 + 3 > hi || 4 * a2 + 3 > hi || vt1 > hi || vt2 < lo {
        return false;
    }
    let p1 = crate::spaceship::get_num_completed_pyramid_size(a1 as i32);
    let p2 = crate::spaceship::get_num_completed_pyramid_size(a2 as i32);
    let s1 = vt1 - p1 as i64;
    let s2 = vt2 + p2 as i64;
    lo <= s1 && s1 <= hi && lo <= s2 && s2 <= hi
}

/// Whether `plan_fits(dx, dy, v, t)` holds, for `t >= 0`.
fn plan_fits_check(dx: i32, dy: i32, v: (i32, i32), t: i32) -> (r: bool)
    requires
        0 <= t,
    ensures
        r == plan_fits(dx as int, dy as int, v, t as int),
{
    if t == i32::MAX || !vrange_fits_check(dx, v.0, t) || !vrange_fits_check(dy, v.1, t) {
        return false;
    }
    let lo = i32::MIN as i64;
    let hi = i32::MAX as i64;
    let t2 = 2 * (t as i128) + 1;
    assert(0 <= t2 * t2 <= 0x1_0000_0000 * 0x1_0000_0000) by (nonlinear_arith)
        requires
            0 <= t2 <= 0x1_0000_0000,
    ;
    if v.0 as i64 + t as i64 > hi || v.1 as i64 + t as i64 > hi || t2 * t2 > hi as i128 {
        return false;
    }
    let xok = match get_available_vrange(dx, v.0, t) {
        Some(xr) => xr.1 < i32::MAX,
        None => true,
    };
    let yok = match get_available_vrange(dy, v.1, t) {
        Some(yr) => yr.1 < i32::MAX,
        None => true,
    };
    xok && yok
}

/// Whether some time `n` gives `numplan` plans with the arithmetic up to it
/// within `i32` (the condition of `generate_visit_plan`).
pub fn plans_exist(dx: i32, dy: i32, v: (i32, i32), numplan: usize) -> (r: bool)
    ensures
        r == exists|n: nat| #[trigger] plans_suffice(dx as int, dy as int, v, n, numplan as int),
{
    let mut count: u128 = 0;
    let mut t: i32 = 0;
    loop
        invariant
            0 <= t,
            count == plans_before(dx as int, dy as int, v, t as nat).len(),
            count <= t * 0x1_0000_0000_0000_0000,
            forall|u: int| 0 <= u < t ==> #[trigger] plan_fits(dx as int, dy as int, v, u),
        decreases i32::MAX - t,
    {
        if count >= numplan as u128 {
            assert(plans_suffice(dx as int, dy as int, v, t as nat, numplan as int));
            return true;
        }
        if !plan_fits_check(dx, dy, v, t) {
            assert forall|n: nat| !plans_suffice(dx as int, dy as int, v, n, numplan as int) by {
                if n <= t {
                    lemma_plans_before_grow(dx as int, dy as int, v, n, t as nat);
                } else {
                    assert(!plan_fits(dx as int, dy as int, v, t as int));
                }
            }
            return false;
        }
        let k: u128 = match (get_available_vrange(dx, v.0, t), get_available_vrange(dy, v.1, t)) {
            (Some(xr), Some(yr)) => {
                let nx: u128 = if xr.1 >= xr.0 { (xr.1 as i64 - xr.0 as i64 + 1) as u128 } else { 0 };
                let ny: u128 = if yr.1 >= yr.0 { (yr.1 as i64 - yr.0 as i64 + 1) as u128 } else { 0 };
                proof {
                    lemma_plan_rows_len(t as int, xr.0 as int, nx as nat, yr.0 as int, ny as nat);
                    assert(nx * ny <= 0x1_0000_0000 * 0x1_0000_0000) by (nonlinear_arith)
                        requires
                            nx <= 0x1_0000_0000,
                            ny <= 0x1_0000_0000,
                    ;
                }
                nx * ny
            },
            _ => 0,
        };
        assert(count + k == plans_before(dx as int, dy as int, v, (t + 1) as nat).len());
        assert(count + k <= (t + 1) * 0x1_0000_0000_0000_0000) by (nonlinear_arith)
            requires
                count <= t * 0x1_0000_0000_0000_0000,
                k <= 0x1_0000_0000_0000_0000,
        ;
        count = count + k;
        t = t + 1;
    }
}

/// `generate_visit_plan` when its condition holds (see `plans_exist`);
/// `None` when no time gives enough plans within `i32`.
pub fn generate_visit_plan_checked(
    curp: (i32, i32),
    curv: (i32, i32),
    targetp: (i32, i32),
    numplan: usize,
) -> (r: Option<Vec<(i32, (i32, i32))>>)
    ensures
        match r {
            Some(v) => v.len() >= numplan && exists|n: nat|
                {
                    &&& v@ == #[trigger] plans_before(targetp.0 - curp.0, targetp.1 - curp.1, curv, n)
                    &&& forall|m: nat|
                        m < n ==> (#[trigger] plans_before(
                            targetp.0 - curp.0,
                            targetp.1 - curp.1,
                            curv,
                            m,
                        )).len() < numplan
                },
            None => !(fits(targetp.0 - curp.0) && fits(targetp.1 - curp.1)) || !exists|n: nat|
                #[trigger] plans_suffice(targetp.0 - curp.0, targetp.1 - curp.1, curv, n, numplan as int),
        },
{
    let dx = targetp.0 as i64 - curp.0 as i64;
    let dy = targetp.1 as i64 - curp.1 as i64;
    if dx < i32::MIN as i64 || dx > i32::MAX as i64 || dy < i32::MIN as i64 || dy > i32::MAX as i64 {
        return None;
    }
    if !plans_exist(dx as i32, dy as i32, curv, numplan) {
        return None;
    }
    Some(generate_visit_plan(curp, curv, targetp, numplan))
}

/// At least `numplan` plans to reach `targetp` from `curp` with velocity
/// `curv`: all the plans of the earliest times, until there are enough.
pub fn generate_visit_plan(
    curp: (i32, i32),
    curv: (i32, i32),
    targetp: (i32, i32),
    numplan: usize,
) -> (r: Vec<(i32, (i32, i32))>)
    requires
        fits(targetp.0 - curp.0),
        fits(targetp.1 - curp.1),
        exists|n: nat|
            #[trigger] plans_suffice(targetp.0 - curp.0, targetp.1 - curp.1, curv, n, numplan as int),
    ensures
        r.len() >= numplan,
        exists|n: nat|
            {
                &&& r@ == #[trigger] plans_before(targetp.0 - curp.0, targetp.1 - curp.1, curv, n)
                &&& forall|m: nat|
                    m < n ==> (#[trigger] plans_before(
                        targetp.0 - curp.0,
                        targetp.1 - curp.1,
                        curv,
                        m,
                    )).len() < numplan
            },
{
    let ghost gdx = targetp.0 - curp.0;
    let ghost gdy = targetp.1 - curp.1;
    let ghost w = choose|n: nat| #[trigger] plans_suffice(gdx, gdy, curv, n, numplan as int);
    let mut ret: Vec<(i32, (i32, i32))> = Vec::new();
    let dx = targetp.0 - curp.0;
    let dy = targetp.1 - curp.1;
    let mut t: i32 = -1;
    while ret.len() < numplan
        invariant
            dx == gdx,
            dy == gdy,
            -1 <= t,
            t + 1 <= w,
            plans_suffice(gdx, gdy, curv, w, numplan as int),
            ret@ == plans_before(gdx, gdy, curv, (t + 1) as nat),
            forall|m: nat|
                m < t + 1 ==> (#[trigger] plans_before(gdx, gdy, curv, m)).len() < numplan,
        decreases w - (t + 1),
    {
        proof {
            if t + 1 == w {
                assert(false);
            }
        }
        assert(plan_fits(gdx, gdy, curv, t + 1));
        t = t + 1;
        let ghost before = ret@;
        let xvr = get_available_vrange(dx, curv.0, t);
        let yvr = get_available_vrange(dy, curv.1, t);
        match (xvr, yvr) {
            (Some(xr), Some(yr)) => {
                let ghost nx = range_len((xr.0 as int, xr.1 as int));
                let ghost ny = range_len((yr.0 as int, yr.1 as int));
                let mut vx = xr.0;
                while vx < xr.1 + 1
                    invariant
                        xr.0 <= vx <= imax(xr.0 as int, xr.1 + 1),
                        fits(xr.1 + 1),
                        fits(yr.1 + 1),
                        0 <= t,
                        ny == range_len((yr.0 as int, yr.1 as int)),
                        ret@ == before + plan_rows(
                            t as int,
                            xr.0 as int,
                            (vx - xr.0) as nat,
                            yr.0 as int,
                            ny,
                        ),
                    decreases xr.1 + 1 - vx,
                {
                    let ghost row_start = ret@;
                    let mut vy = yr.0;
                    while vy < yr.1 + 1
                        invariant
                            yr.0 <= vy <= imax(yr.0 as int, yr.1 + 1),
                            fits(yr.1 + 1),
                            ret@ == row_start + plan_row(
                                t as int,
                                vx as int,
                                yr.0 as int,
                                (vy - yr.0) as nat,
                            ),
                        decreases yr.1 + 1 - vy,
                    {
                        ret.push((t, (vx, vy)));
                        vy = vy + 1;
                        assert(ret@ =~= row_start + plan_row(
                            t as int,
                            vx as int,
                            yr.0 as int,
                            (vy - yr.0) as nat,
                        ));
                    }
                    assert(plan_row(t as int, vx as int, yr.0 as int, (vy - yr.0) as nat)
                        =~= plan_row(t as int, vx as int, yr.0 as int, ny));
                    vx = vx + 1;
                    assert(xr.0 + (vx - xr.0) - 1 == vx - 1);
                }
                assert((vx - xr.0) as nat == nx);
            },
            _ => {},
        }
        assert(ret@ =~= plans_before(gdx, gdy, curv, (t + 1) as nat));
    }
    proof {
        lemma_plans_before_grow(gdx, gdy, curv, (t + 1) as nat, w);
    }
    ret
}

proof fn lemma_plan_rows_member(t: int, xlo: int, nx: nat, ylo: int, ny: nat, k: int)
    requires
        0 <= k < plan_rows(t, xlo, nx, ylo, ny).len(),
        fits(xlo),
        fits(xlo + nx),
        fits(ylo),
        fits(ylo + ny),
    ensures
        ({
            let e = plan_rows(t, xlo, nx, ylo, ny)[k];
            &&& e.0 == t as i32
            &&& xlo <= e.1.0 < xlo + nx
            &&& ylo <= e.1.1 < ylo + ny
        }),
    decreases nx,
{
    lemma_plan_rows_len(t, xlo, nx, ylo, ny);
    if nx > 0 {
        let prev = plan_rows(t, xlo, (nx - 1) as nat, ylo, ny);
        lemma_plan_rows_len(t, xlo, (nx - 1) as nat, ylo, ny);
        if k < prev.len() {
            lemma_plan_rows_member(t, xlo, (nx - 1) as nat, ylo, ny, k);
        }
    }
}

proof fn lemma_plan_rows_len(t: int, xlo: int, nx: nat, ylo: int, ny: nat)
    ensures
        plan_rows(t, xlo, nx, ylo, ny).len() == nx * ny,
    decreases nx,
{
    if nx > 0 {
        lemma_plan_rows_len(t, xlo, (nx - 1) as nat, ylo, ny);
        assert((nx - 1) * ny + ny == nx * ny) by (nonlinear_arith);
    } else {
        assert(nx * ny == 0) by (nonlinear_arith)
            requires
                nx == 0,
        ;
    }
}

/// Every plan of the times `0 .. n` has a time in that range and end velocities
/// in the feasible ranges of both axes.
proof fn lemma_plans_member(dx: int, dy: int, v: (i32, i32), n: nat, k: int)
    requires
        0 <= k < plans_before(dx, dy, v, n).len(),
        forall|t: int| 0 <= t < n ==> #[trigger] plan_fits(dx, dy, v, t),
    ensures
        ({
            let e = plans_before(dx, dy, v, n)[k];
            &&& 0 <= e.0 < n
            &&& vrange(dx, v.0 as int, e.0 as int) matches Some(xr) && xr.0 <= e.1.0 <= xr.1
            &&& vrange(dy, v.1 as int, e.0 as int) matches Some(yr) && yr.0 <= e.1.1 <= yr.1
        }),
    decreases n,
{
    if n > 0 {
        let prev = plans_before(dx, dy, v, (n - 1) as nat);
        if k < prev.len() {
            lemma_plans_member(dx, dy, v, (n - 1) as nat, k);
        } else {
            let t = n - 1;
            let kk = k - prev.len();
            match (vrange(dx, v.0 as int, t), vrange(dy, v.1 as int, t)) {
                (Some(xr), Some(yr)) => {
                    assert(plan_fits(dx, dy, v, t));
                    assert(vrange_fits(dx, v.0 as int, t));
                    assert(vrange_fits(dy, v.1 as int, t));
                    assert(reachable_at(dx, v.0 as int, t));
                    assert(reachable_at(dy, v.1 as int, t));
                    lemma_plan_rows_member(t, xr.0, range_len(xr), yr.0, range_len(yr), kk);
                },
                _ => {},
            }
        }
    }
}

/// Every plan of sufficient times can be carried out.
proof fn lemma_plan_axis_ok(dx: int, dy: int, v: (i32, i32), n: nat, k: int)
    requires
        0 <= k < plans_before(dx, dy, v, n).len(),
        forall|t: int| 0 <= t < n ==> #[trigger] plan_fits(dx, dy, v, t),
    ensures
        ({
            let e = plans_before(dx, dy, v, n)[k];
            &&& axis_ok(dx, v.0 as int, e.1.0 as int, e.0 as int)
            &&& axis_ok(dy, v.1 as int, e.1.1 as int, e.0 as int)
        }),
{
    lemma_plans_member(dx, dy, v, n, k);
    let e = plans_before(dx, dy, v, n)[k];
    let t = e.0 as int;
    assert(plan_fits(dx, dy, v, t));
    assert(feasible(dx, v.0 as int, e.1.0 as int, t));
    assert(feasible(dy, v.1 as int, e.1.1 as int, t));
    lemma_plan_facts(dx, v.0 as int, e.1.0 as int, t);
    lemma_plan_facts(dy, v.1 as int, e.1.1 as int, t);
    let px = plan_p(v.0 as int, e.1.0 as int, t);
    let py = plan_p(v.1 as int, e.1.1 as int, t);
    assert((px + 1) * (px + 1) <= (2 * t + 1) * (2 * t + 1)) by (nonlinear_arith)
        requires
            0 <= px <= 2 * t,
    ;
    assert((py + 1) * (py + 1) <= (2 * t + 1) * (2 * t + 1)) by (nonlinear_arith)
        requires
            0 <= py <= 2 * t,
    ;
}

/// The thrusts to `targetpt` along the first plan (the earliest time, then the
/// slowest end velocities), and the velocity at the end.
pub fn visit_point(curpt: (i32, i32), curvel: (i32, i32), targetpt: (i32, i32)) -> (r: (
    Vec<(i32, i32)>,
    (i32, i32),
))
    requires
        fits(targetpt.0 - curpt.0),
        fits(targetpt.1 - curpt.1),
        exists|n: nat|
            #[trigger] plans_suffice(targetpt.0 - curpt.0, targetpt.1 - curpt.1, curvel, n, 1),
    ensures
        exists|n: nat|
            {
                let plans = #[trigger] plans_before(
                    targetpt.0 - curpt.0,
                    targetpt.1 - curpt.1,
                    curvel,
                    n,
                );
                &&& plans.len() >= 1
                &&& forall|m: nat|
                    m < n ==> (#[trigger] plans_before(
                        targetpt.0 - curpt.0,
                        targetpt.1 - curpt.1,
                        curvel,
                        m,
                    )).len() < 1
                &&& r.1 == plans[0].1
                &&& r.0@ == visit_thrusts(curpt, curvel, targetpt, r.1, plans[0].0 as int)
            },
        state_at(curpt, curvel, r.0@, r.0.len() as nat) == (
            (targetpt.0 as int, targetpt.1 as int),
            (r.1.0 as int, r.1.1 as int),
        ),
        forall|j: int| 0 <= j < r.0.len() ==> -1 <= (#[trigger] r.0@[j]).0 <= 1 && -1 <= r.0@[j].1 <= 1,
{
    let ghost gdx = targetpt.0 - curpt.0;
    let ghost gdy = targetpt.1 - curpt.1;
    let ghost w = choose|n: nat| #[trigger] plans_suffice(gdx, gdy, curvel, n, 1);
    let p = generate_visit_plan(curpt, curvel, targetpt, 1);
    let ghost n = choose|n: nat|
        {
            &&& p@ == #[trigger] plans_before(gdx, gdy, curvel, n)
            &&& forall|m: nat|
                m < n ==> (#[trigger] plans_before(gdx, gdy, curvel, m)).len() < 1
        };
    proof {
        if n > w {
            lemma_plans_before_grow(gdx, gdy, curvel, w, (n - 1) as nat);
        }
        assert forall|t: int| 0 <= t < n implies #[trigger] plan_fits(gdx, gdy, curvel, t) by {
            assert(plans_suffice(gdx, gdy, curvel, w, 1));
        }
        lemma_plan_axis_ok(gdx, gdy, curvel, n, 0);
    }
    let p0 = p[0];
    let t = p0.0;
    let vend = p0.1;
    let accl = actualize_visit_plan(curpt, curvel, targetpt, vend, t);
    (accl, vend)
}


/// `visit_point` when its condition holds (see `plans_exist`); `None` when
/// the target is out of `i32` reach or no time has a plan within `i32`.
pub fn visit_point_checked(curpt: (i32, i32), curvel: (i32, i32), targetpt: (i32, i32)) -> (r: Option<(
    Vec<(i32, i32)>,
    (i32, i32),
)>)
    ensures
        match r {
            Some(r) => {
                &&& exists|n: nat|
                    {
                        let plans = #[trigger] plans_before(
                            targetpt.0 - curpt.0,
                            targetpt.1 - curpt.1,
                            curvel,
                            n,
                        );
                        &&& plans.len() >= 1
                        &&& forall|m: nat|
                            m < n ==> (#[trigger] plans_before(
                                targetpt.0 - curpt.0,
                                targetpt.1 - curpt.1,
                                curvel,
                                m,
                            )).len() < 1
                        &&& r.1 == plans[0].1
                        &&& r.0@ == visit_thrusts(curpt, curvel, targetpt, r.1, plans[0].0 as int)
                    }
                &&& state_at(curpt, curvel, r.0@, r.0.len() as nat) == (
                    (targetpt.0 as int, targetpt.1 as int),
                    (r.1.0 as int, r.1.1 as int),
                )
                &&& forall|j: int| 0 <= j < r.0.len() ==> -1 <= (#[trigger] r.0@[j]).0 <= 1 && -1 <= r.0@[j].1 <= 1
            },
            None => !(fits(targetpt.0 - curpt.0) && fits(targetpt.1 - curpt.1)) || !exists|n: nat|
                #[trigger] plans_suffice(targetpt.0 - curpt.0, targetpt.1 - curpt.1, curvel, n, 1),
        },
{
    let dx = targetpt.0 as i64 - curpt.0 as i64;
    let dy = targetpt.1 as i64 - curpt.1 as i64;
    if dx < i32::MIN as i64 || dx > i32::MAX as i64 || dy < i32::MIN as i64 || dy > i32::MAX as i64 {
        return None;
    }
    if !plans_exist(dx as i32, dy as i32, curvel, 1) {
        return None;
    }
    Some(visit_point(curpt, curvel, targetpt))
}

// ---------------------------------------------------------------------------
// Plans read off a trajectory
// ---------------------------------------------------------------------------

/// The last index of `p` in `v`, if it occurs.
pub open spec fn last_index(v: Seq<(i32, i32)>, p: (i32, i32)) -> Option<int>
    decreases v.len(),
{
    if v.len() == 0 {
        None
    } else if v.last() == p {
        Some(v.len() - 1)
    } else {
        last_index(v.drop_last(), p)
    }
}

/// The plan read off the first `k` states of a trajectory: each state whose
/// position is a target not yet visited (the target being the last entry of
/// `v` at that position) adds `(position, velocity, steps since the previous
/// such state)`. Also gives the targets visited and the step of the previous
/// such state.
pub open spec fn plan_prefix(
    v: Seq<(i32, i32)>,
    traj: Seq<((i32, i32), (i32, i32))>,
    k: nat,
) -> (Seq<((i32, i32), (i32, i32), usize)>, Set<int>, int)
    decreases k,
{
    if k == 0 {
        (Seq::empty(), Set::empty(), -1)
    } else {
        let (plan, visited, prev) = plan_prefix(v, traj, (k - 1) as nat);
        let t = k - 1;
        let (p, vel) = traj[t];
        match last_index(v, p) {
            Some(idx) => if !visited.contains(idx) {
                (plan.push((p, vel, (t - prev) as usize)), visited.insert(idx), t)
            } else {
                (plan, visited, prev)
            },
            None => (plan, visited, prev),
        }
    }
}

/// The last index of `p` in `v`, if it occurs.
fn find_last(v: &Vec<(i32, i32)>, p: (i32, i32)) -> (r: Option<usize>)
    ensures
        match last_index(v@, p) {
            Some(i) => r == Some(i as usize),
            None => r is None,
        },
{
    let mut i = v.len();
    assert(v@.take(i as int) =~= v@);
    while i > 0
        invariant
            i <= v.len(),
            last_index(v@, p) == last_index(v@.take(i as int), p),
        decreases i,
    {
        assert(v@.take(i as int).drop_last() =~= v@.take(i - 1));
        let q = v[i - 1];
        if q.0 == p.0 && q.1 == p.1 {
            return Some(i - 1);
        }
        i = i - 1;
    }
    None
}

/// The plan of the keypad string `seq` for the targets `v`: where the
/// trajectory from the origin at rest first reaches each target, with the
/// velocity there and the number of steps since the previous such point (see
/// `plan_prefix`).
pub fn make_plan(v: &Vec<(i32, i32)>, seq: &str) -> (r: Vec<((i32, i32), (i32, i32), usize)>)
    requires
        forall|i: int| 0 <= i < seq.spec_bytes().len() ==> #[trigger] seq.spec_bytes()[i] >= 49,
        motion_fits((0, 0), (0, 0), seq.spec_bytes().map_values(|b: u8| key_thrust(b))),
        seq.spec_bytes().len() <= i32::MAX,
    ensures
        ({
            let accl = seq.spec_bytes().map_values(|b: u8| key_thrust(b));
            let traj = Seq::new(
                accl.len(),
                |k: int|
                    {
                        let st = state_at((0, 0), (0, 0), accl, (k + 1) as nat);
                        ((st.0.0 as i32, st.0.1 as i32), (st.1.0 as i32, st.1.1 as i32))
                    },
            );
            r@ == plan_prefix(v@, traj, accl.len()).0
        }),
{
    let accl = decode_thrust_from_keypad(seq);
    let traj = simulate((0, 0), (0, 0), &accl);
    let ghost gtraj = traj@;
    let mut visited: Vec<bool> = Vec::new();
    let mut i: usize = 0;
    while i < v.len()
        invariant
            i <= v.len(),
            visited.len() == i,
            forall|j: int| 0 <= j < i ==> !visited@[j],
        decreases v.len() - i,
    {
        visited.push(false);
        i = i + 1;
    }
    let mut plan: Vec<((i32, i32), (i32, i32), usize)> = Vec::new();
    let mut prevptidx: i32 = -1;
    let mut t: usize = 0;
    while t < traj.len()
        invariant
            traj@ == gtraj,
            traj.len() == accl.len(),
            accl.len() <= i32::MAX,
            t <= traj.len(),
            visited.len() == v.len(),
            plan@ == plan_prefix(v@, gtraj, t as nat).0,
            forall|j: int|
                0 <= j < v.len() ==> (visited@[j] <==> plan_prefix(v@, gtraj, t as nat).1.contains(j)),
            prevptidx == plan_prefix(v@, gtraj, t as nat).2,
            -1 <= prevptidx < t,
        decreases traj.len() - t,
    {
        let (p, vel) = traj[t];
        match find_last(v, p) {
            Some(idx) => {
                proof {
                    lemma_last_index_bound(v@, p);
                }
                if !visited[idx] {
                    let keylen = (t as i32 - prevptidx) as usize;
                    plan.push((p, vel, keylen));
                    prevptidx = t as i32;
                    visited.set(idx, true);
                }
            },
            None => {},
        }
        t = t + 1;
    }
    proof {
        let accl_spec = seq.spec_bytes().map_values(|b: u8| key_thrust(b));
        let traj_spec = Seq::new(
            accl_spec.len(),
            |k: int|
                {
                    let st = state_at((0, 0), (0, 0), accl_spec, (k + 1) as nat);
                    ((st.0.0 as i32, st.0.1 as i32), (st.1.0 as i32, st.1.1 as i32))
                },
        );
        assert(gtraj =~= traj_spec);
    }
    plan
}

proof fn lemma_last_index_bound(v: Seq<(i32, i32)>, p: (i32, i32))
    ensures
        last_index(v, p) matches Some(i) ==> 0 <= i < v.len(),
    decreases v.len(),
{
    if v.len() > 0 && v.last() != p {
        lemma_last_index_bound(v.drop_last(), p);
    }
}

/// The first plan to reach the relative target `(dx, dy)` from velocity
/// `v`: the first of the plans of the earliest time that has any.
#[verifier::opaque]
pub open spec fn first_plan(dx: int, dy: int, v: (i32, i32)) -> (i32, (i32, i32)) {
    let n = choose|n: nat|
        #![trigger plans_before(dx, dy, v, n)]
        plans_before(dx, dy, v, n).len() >= 1 && forall|m: nat|
            m < n ==> (#[trigger] plans_before(dx, dy, v, m)).len() < 1;
    plans_before(dx, dy, v, n)[0]
}

/// Each leg from the `k`-th checkpoint on, flown from `cur` with velocity
/// `vel` along its first plan, has a plan whose arithmetic stays within
/// `i32`.
pub open spec fn greedy_ok(cps: Seq<(i32, i32)>, k: int, cur: (i32, i32), vel: (i32, i32)) -> bool
    decreases cps.len() - k,
{
    if k < 0 || k >= cps.len() {
        true
    } else {
        let dx = cps[k].0 - cur.0;
        let dy = cps[k].1 - cur.1;
        &&& fits(dx)
        &&& fits(dy)
        &&& exists|n: nat| #[trigger] plans_suffice(dx, dy, vel, n, 1)
        &&& greedy_ok(cps, k + 1, cps[k], first_plan(dx, dy, vel).1)
    }
}

/// The keys of the legs from the `k`-th checkpoint on, each along its first
/// plan.
pub open spec fn greedy_keys(cps: Seq<(i32, i32)>, k: int, cur: (i32, i32), vel: (i32, i32)) -> Seq<char>
    decreases cps.len() - k,
{
    if k < 0 || k >= cps.len() {
        Seq::empty()
    } else {
        let dx = cps[k].0 - cur.0;
        let dy = cps[k].1 - cur.1;
        let p = first_plan(dx, dy, vel);
        visit_thrusts(cur, vel, cps[k], p.1, p.0 as int).map_values(|a: (i32, i32)| keypad_char(a)) + greedy_keys(
            cps,
            k + 1,
            cps[k],
            p.1,
        )
    }
}

/// The thrusts along the first plan to `targetpt` and the velocity at the
/// end (`visit_point`, with its plan named).
fn visit_first(curpt: (i32, i32), curvel: (i32, i32), targetpt: (i32, i32)) -> (r: (Vec<(i32, i32)>, (i32, i32)))
    requires
        fits(targetpt.0 - curpt.0),
        fits(targetpt.1 - curpt.1),
        exists|n: nat|
            #[trigger] plans_suffice(targetpt.0 - curpt.0, targetpt.1 - curpt.1, curvel, n, 1),
    ensures
        ({
            let p = first_plan(targetpt.0 - curpt.0, targetpt.1 - curpt.1, curvel);
            &&& r.1 == p.1
            &&& r.0@ == visit_thrusts(curpt, curvel, targetpt, p.1, p.0 as int)
        }),
        forall|j: int| 0 <= j < r.0.len() ==> #[trigger] has_key(r.0@[j]),
{
    let ghost dx = targetpt.0 - curpt.0;
    let ghost dy = targetpt.1 - curpt.1;
    let (accl, vend) = visit_point(curpt, curvel, targetpt);
    proof {
        let n1 = choose|n: nat|
            {
                let plans = #[trigger] plans_before(dx, dy, curvel, n);
                &&& plans.len() >= 1
                &&& forall|m: nat| m < n ==> (#[trigger] plans_before(dx, dy, curvel, m)).len() < 1
                &&& vend == plans[0].1
                &&& accl@ == visit_thrusts(curpt, curvel, targetpt, vend, plans[0].0 as int)
            };
        let n2 = choose|n: nat|
            #![trigger plans_before(dx, dy, curvel, n)]
            plans_before(dx, dy, curvel, n).len() >= 1 && forall|m: nat|
                m < n ==> (#[trigger] plans_before(dx, dy, curvel, m)).len() < 1;
        assert(plans_before(dx, dy, curvel, n1).len() >= 1);
        if n1 < n2 {
            assert(plans_before(dx, dy, curvel, n1).len() < 1);
        }
        if n2 < n1 {
            assert(plans_before(dx, dy, curvel, n2).len() < 1);
        }
        assert(n1 == n2);
        reveal(first_plan);
        assert forall|j: int| 0 <= j < accl.len() implies #[trigger] has_key(accl@[j]) by {
            assert(-1 <= accl@[j].0 <= 1 && -1 <= accl@[j].1 <= 1);
        }
    }
    (accl, vend)
}

/// The keys of the route through the checkpoints in order, from the origin
/// at rest, each leg along its first plan (see `greedy_keys`).
#[verifier::rlimit(40)]
pub fn solve_greedy(v: &Vec<(i32, i32)>) -> (r: String)
    requires
        greedy_ok(v@, 0, (0, 0), (0, 0)),
    ensures
        r@ == greedy_keys(v@, 0, (0, 0), (0, 0)),
{
    let mut buffer = String::new();
    let mut curpt: (i32, i32) = (0, 0);
    let mut curvel: (i32, i32) = (0, 0);
    let mut i: usize = 0;
    proof {
        assert(buffer@ + greedy_keys(v@, 0, curpt, curvel) =~= greedy_keys(v@, 0, (0, 0), (0, 0)));
    }
    while i < v.len()
        invariant
            i <= v.len(),
            greedy_ok(v@, i as int, curpt, curvel),
            buffer@ + greedy_keys(v@, i as int, curpt, curvel) == greedy_keys(v@, 0, (0, 0), (0, 0)),
        decreases v.len() - i,
    {
        let targetpt = v[i];
        let ghost dx = targetpt.0 - curpt.0;
        let ghost dy = targetpt.1 - curpt.1;
        let (accl, vend) = visit_first(curpt, curvel, targetpt);
        let ghost keys = accl@.map_values(|a: (i32, i32)| keypad_char(a));
        let encoded = encode_thrust_into_keypad(accl);
        let ghost before = buffer@;
        append_str(&mut buffer, encoded.as_str());
        proof {
            assert(greedy_keys(v@, i as int, curpt, curvel) == keys + greedy_keys(v@, i + 1, targetpt, vend));
            assert(buffer@ + greedy_keys(v@, i + 1, targetpt, vend) =~= before + greedy_keys(v@, i as int, curpt, curvel));
        }
        curpt = targetpt;
        curvel = vend;
        i = i + 1;
    }
    proof {
        assert(buffer@ + Seq::<char>::empty() =~= buffer@);
    }
    buffer
}

/// `solve_greedy` when every leg has a plan within `i32` (`greedy_ok`), tested
/// leg by leg as the route is built; `None` when some leg has none.
#[verifier::rlimit(40)]
pub fn solve_greedy_checked(v: &Vec<(i32, i32)>) -> (r: Option<String>)
    ensures
        match r {
            Some(s) => greedy_ok(v@, 0, (0, 0), (0, 0)) && s@ == greedy_keys(v@, 0, (0, 0), (0, 0)),
            None => !greedy_ok(v@, 0, (0, 0), (0, 0)),
        },
{
    let mut buffer = String::new();
    let mut curpt: (i32, i32) = (0, 0);
    let mut curvel: (i32, i32) = (0, 0);
    let mut i: usize = 0;
    proof {
        assert(buffer@ + greedy_keys(v@, 0, curpt, curvel) =~= greedy_keys(v@, 0, (0, 0), (0, 0)));
    }
    while i < v.len()
        invariant
            i <= v.len(),
            greedy_ok(v@, 0, (0, 0), (0, 0)) == greedy_ok(v@, i as int, curpt, curvel),
            greedy_ok(v@, i as int, curpt, curvel) ==> buffer@ + greedy_keys(v@, i as int, curpt, curvel)
                == greedy_keys(v@, 0, (0, 0), (0, 0)),
        decreases v.len() - i,
    {
        let targetpt = v[i];
        let dx = targetpt.0 as i64 - curpt.0 as i64;
        let dy = targetpt.1 as i64 - curpt.1 as i64;
        if dx < i32::MIN as i64 || dx > i32::MAX as i64 || dy < i32::MIN as i64 || dy > i32::MAX as i64 {
            return None;
        }
        if !plans_exist(dx as i32, dy as i32, curvel, 1) {
            return None;
        }
        let (accl, vend) = visit_first(curpt, curvel, targetpt);
        let ghost keys = accl@.map_values(|a: (i32, i32)| keypad_char(a));
        let encoded = encode_thrust_into_keypad(accl);
        let ghost before = buffer@;
        append_str(&mut buffer, encoded.as_str());
        proof {
            assert(greedy_ok(v@, i as int, curpt, curvel) == greedy_ok(v@, i + 1, targetpt, vend));
            if greedy_ok(v@, i as int, curpt, curvel) {
                assert(greedy_keys(v@, i as int, curpt, curvel) == keys + greedy_keys(v@, i + 1, targetpt, vend));
                assert(buffer@ + greedy_keys(v@, i + 1, targetpt, vend) =~= before + greedy_keys(
                    v@,
                    i as int,
                    curpt,
                    curvel,
                ));
            }
        }
        curpt = targetpt;
        curvel = vend;
        i = i + 1;
    }
    proof {
        assert(buffer@ + Seq::<char>::empty() =~= buffer@);
    }
    Some(buffer)
}

/// The plans of the earliest times that give at least `numplan` of them
/// (what `generate_visit_plan` returns).
#[verifier::opaque]
pub open spec fn plan_list(dx: int, dy: int, v: (i32, i32), numplan: int) -> Seq<(i32, (i32, i32))> {
    plans_before(
        dx,
        dy,
        v,
        choose|n: nat|
            #![trigger plans_before(dx, dy, v, n)]
            plans_before(dx, dy, v, n).len() >= numplan && forall|m: nat|
                m < n ==> (#[trigger] plans_before(dx, dy, v, m)).len() < numplan,
    )
}

/// `numplan` plans can be had to reach `(dx, dy)` from velocity `v`, with
/// the arithmetic within `i32`.
pub open spec fn plans_ok(dx: int, dy: int, v: (i32, i32), numplan: int) -> bool {
    &&& fits(dx)
    &&& fits(dy)
    &&& exists|n: nat| #[trigger] plans_suffice(dx, dy, v, n, numplan)
}

/// At least `numplan` plans to reach `targetp` (see `plan_list`), each one
/// that can be carried out.
fn plans_to(curp: (i32, i32), curv: (i32, i32), targetp: (i32, i32), numplan: usize) -> (r: Vec<(i32, (i32, i32))>)
    requires
        plans_ok(targetp.0 - curp.0, targetp.1 - curp.1, curv, numplan as int),
    ensures
        r@ == plan_list(targetp.0 - curp.0, targetp.1 - curp.1, curv, numplan as int),
        r.len() >= numplan,
        forall|k: int|
            0 <= k < r.len() ==> axis_ok(targetp.0 - curp.0, curv.0 as int, (#[trigger] r@[k]).1.0 as int, r@[k].0 as int)
                && axis_ok(targetp.1 - curp.1, curv.1 as int, r@[k].1.1 as int, r@[k].0 as int),
        forall|k: int| 0 <= k < r.len() ==> 0 <= (#[trigger] r@[k]).0 < i32::MAX,
{
    let ghost dx = targetp.0 - curp.0;
    let ghost dy = targetp.1 - curp.1;
    let ghost w = choose|n: nat| #[trigger] plans_suffice(dx, dy, curv, n, numplan as int);
    let r = generate_visit_plan(curp, curv, targetp, numplan);
    proof {
        reveal(plan_list);
        let n1 = choose|n: nat|
            {
                &&& r@ == #[trigger] plans_before(dx, dy, curv, n)
                &&& forall|m: nat| m < n ==> (#[trigger] plans_before(dx, dy, curv, m)).len() < numplan
            };
        let n2 = choose|n: nat|
            #![trigger plans_before(dx, dy, curv, n)]
            plans_before(dx, dy, curv, n).len() >= numplan && forall|m: nat|
                m < n ==> (#[trigger] plans_before(dx, dy, curv, m)).len() < numplan;
        assert(plans_before(dx, dy, curv, n1).len() >= numplan);
        if n1 < n2 {
            assert(plans_before(dx, dy, curv, n1).len() < numplan);
        }
        if n2 < n1 {
            assert(plans_before(dx, dy, curv, n2).len() < numplan);
        }
        assert(n1 == n2);
        if n1 > w {
            lemma_plans_before_grow(dx, dy, curv, w, (n1 - 1) as nat);
            assert(plans_before(dx, dy, curv, (n1 - 1) as nat).len() < numplan);
        }
        assert forall|t: int| 0 <= t < n1 implies #[trigger] plan_fits(dx, dy, curv, t) by {
            assert(plans_suffice(dx, dy, curv, w, numplan as int));
        }
        assert forall|k: int| 0 <= k < r.len() implies axis_ok(dx, curv.0 as int, (#[trigger] r@[k]).1.0 as int, r@[k].0 as int)
            && axis_ok(dy, curv.1 as int, r@[k].1.1 as int, r@[k].0 as int) by {
            lemma_plan_axis_ok(dx, dy, curv, n1, k);
        }
        assert forall|k: int| 0 <= k < r.len() implies 0 <= (#[trigger] r@[k]).0 < i32::MAX by {
            lemma_plans_member(dx, dy, curv, n1, k);
            assert(plan_fits(dx, dy, curv, r@[k].0 as int));
        }
    }
    r
}

/// The least time of the plans `ps` (`i32::MAX` when there are none).
pub open spec fn min_time(ps: Seq<(i32, (i32, i32))>) -> int
    decreases ps.len(),
{
    if ps.len() == 0 {
        i32::MAX as int
    } else {
        let m = min_time(ps.drop_last());
        let t = ps.last().0 as int;
        if t < m {
            t
        } else {
            m
        }
    }
}

/// Scanning the first `k` plans `p1` of a leg: the first one whose time,
/// plus the least time of the `nplan` plans of the next leg `d2` from its
/// end velocity, is less than that of every one before it, with that sum;
/// `(None, i32::MAX)` before any.
pub open spec fn la1_scan(p1: Seq<(i32, (i32, i32))>, d2: (int, int), nplan: int, k: int) -> (
    Option<(i32, (i32, i32))>,
    int,
)
    decreases k,
{
    if k <= 0 {
        (None, i32::MAX as int)
    } else {
        let (b, ft) = la1_scan(p1, d2, nplan, k - 1);
        let e = p1[k - 1];
        let m = e.0 + min_time(plan_list(d2.0, d2.1, e.1, nplan));
        if m < ft {
            (Some(e), m)
        } else {
            (b, ft)
        }
    }
}

/// The plan of the leg from `cur` with velocity `vel` to `a` that looks
/// one leg ahead, to `b` (see `la1_scan`).
pub open spec fn la1_pick(cur: (i32, i32), vel: (i32, i32), a: (i32, i32), b: (i32, i32), nplan: int) -> Option<
    (i32, (i32, i32)),
> {
    let p1 = plan_list(a.0 - cur.0, a.1 - cur.1, vel, nplan);
    la1_scan(p1, (b.0 - a.0, b.1 - a.1), nplan, p1.len() as int).0
}

/// Each leg from the `i`-th checkpoint on can be planned looking one leg
/// ahead, and the last leg along its first plan.
#[verifier::opaque]
pub open spec fn la1_ok(cps: Seq<(i32, i32)>, i: int, cur: (i32, i32), vel: (i32, i32), nplan: int) -> bool
    decreases cps.len() - i,
{
    if i < 0 || i >= cps.len() {
        true
    } else if i + 1 == cps.len() {
        plans_ok(cps[i].0 - cur.0, cps[i].1 - cur.1, vel, 1)
    } else {
        let p1 = plan_list(cps[i].0 - cur.0, cps[i].1 - cur.1, vel, nplan);
        let d2 = (cps[i + 1].0 - cps[i].0, cps[i + 1].1 - cps[i].1);
        &&& plans_ok(cps[i].0 - cur.0, cps[i].1 - cur.1, vel, nplan)
        &&& fits(d2.0) && fits(d2.1)
        &&& forall|k: int| 0 <= k < p1.len() ==> plans_ok(d2.0, d2.1, (#[trigger] p1[k]).1, nplan)
        &&& la1_pick(cur, vel, cps[i], cps[i + 1], nplan) is Some
        &&& la1_ok(cps, i + 1, cps[i], la1_pick(cur, vel, cps[i], cps[i + 1], nplan).unwrap().1, nplan)
    }
}

/// The keys of the legs from the `i`-th checkpoint on, each planned looking
/// one leg ahead, the last along its first plan.
#[verifier::opaque]
pub open spec fn la1_keys(cps: Seq<(i32, i32)>, i: int, cur: (i32, i32), vel: (i32, i32), nplan: int) -> Seq<char>
    decreases cps.len() - i,
{
    if i < 0 || i >= cps.len() {
        Seq::empty()
    } else if i + 1 == cps.len() {
        let p = first_plan(cps[i].0 - cur.0, cps[i].1 - cur.1, vel);
        visit_thrusts(cur, vel, cps[i], p.1, p.0 as int).map_values(|a: (i32, i32)| keypad_char(a))
    } else {
        let e = la1_pick(cur, vel, cps[i], cps[i + 1], nplan).unwrap();
        visit_thrusts(cur, vel, cps[i], e.1, e.0 as int).map_values(|a: (i32, i32)| keypad_char(a)) + la1_keys(
            cps,
            i + 1,
            cps[i],
            e.1,
            nplan,
        )
    }
}

proof fn lemma_la1_step(cps: Seq<(i32, i32)>, i: int, cur: (i32, i32), vel: (i32, i32), nplan: int)
    requires
        la1_ok(cps, i, cur, vel, nplan),
        0 <= i,
        i + 1 < cps.len(),
    ensures
        plans_ok(cps[i].0 - cur.0, cps[i].1 - cur.1, vel, nplan),
        fits(cps[i + 1].0 - cps[i].0) && fits(cps[i + 1].1 - cps[i].1),
        forall|k: int|
            0 <= k < plan_list(cps[i].0 - cur.0, cps[i].1 - cur.1, vel, nplan).len() ==> plans_ok(
                cps[i + 1].0 - cps[i].0,
                cps[i + 1].1 - cps[i].1,
                (#[trigger] plan_list(cps[i].0 - cur.0, cps[i].1 - cur.1, vel, nplan)[k]).1,
                nplan,
            ),
        la1_pick(cur, vel, cps[i], cps[i + 1], nplan) is Some,
        la1_ok(cps, i + 1, cps[i], la1_pick(cur, vel, cps[i], cps[i + 1], nplan).unwrap().1, nplan),
        ({
            let e = la1_pick(cur, vel, cps[i], cps[i + 1], nplan).unwrap();
            la1_keys(cps, i, cur, vel, nplan) == visit_thrusts(cur, vel, cps[i], e.1, e.0 as int).map_values(
                |a: (i32, i32)| keypad_char(a),
            ) + la1_keys(cps, i + 1, cps[i], e.1, nplan)
        }),
{
    reveal(la1_ok);
    reveal(la1_keys);
}

proof fn lemma_la1_last(cps: Seq<(i32, i32)>, i: int, cur: (i32, i32), vel: (i32, i32), nplan: int)
    requires
        la1_ok(cps, i, cur, vel, nplan),
        0 <= i,
        i + 1 == cps.len(),
    ensures
        plans_ok(cps[i].0 - cur.0, cps[i].1 - cur.1, vel, 1),
        ({
            let p = first_plan(cps[i].0 - cur.0, cps[i].1 - cur.1, vel);
            la1_keys(cps, i, cur, vel, nplan) == visit_thrusts(cur, vel, cps[i], p.1, p.0 as int).map_values(
                |a: (i32, i32)| keypad_char(a),
            )
        }),
{
    reveal(la1_ok);
    reveal(la1_keys);
}

proof fn lemma_la1_scan_member(p1: Seq<(i32, (i32, i32))>, d2: (int, int), nplan: int, k: int)
    requires
        0 <= k <= p1.len(),
    ensures
        la1_scan(p1, d2, nplan, k).0 matches Some(e) ==> exists|j: int| 0 <= j < k && p1[j] == e,
    decreases k,
{
    if k > 0 {
        lemma_la1_scan_member(p1, d2, nplan, k - 1);
    }
}

/// The thrusts and keys of the leg from `cur` with velocity `vel` to `a`
/// along the plan `e`.
fn leg_keys(cur: (i32, i32), vel: (i32, i32), a: (i32, i32), e: (i32, (i32, i32)), buffer: &mut String)
    requires
        fits(a.0 - cur.0),
        fits(a.1 - cur.1),
        axis_ok(a.0 - cur.0, vel.0 as int, e.1.0 as int, e.0 as int),
        axis_ok(a.1 - cur.1, vel.1 as int, e.1.1 as int, e.0 as int),
    ensures
        final(buffer)@ == old(buffer)@ + visit_thrusts(cur, vel, a, e.1, e.0 as int).map_values(
            |t: (i32, i32)| keypad_char(t),
        ),
{
    let accl = actualize_visit_plan(cur, vel, a, e.1, e.0);
    assert forall|j: int| 0 <= j < accl.len() implies #[trigger] has_key(accl@[j]) by {
        assert(-1 <= accl@[j].0 <= 1 && -1 <= accl@[j].1 <= 1);
    }
    let ghost thr = accl@;
    let encoded = encode_thrust_into_keypad(accl);
    append_str(buffer, encoded.as_str());
}

proof fn lemma_la1_scan_bound(p1: Seq<(i32, (i32, i32))>, d2: (int, int), nplan: int, k: int)
    ensures
        la1_scan(p1, d2, nplan, k).1 <= i32::MAX,
    decreases k,
{
    if k > 0 {
        lemma_la1_scan_bound(p1, d2, nplan, k - 1);
    }
}

/// The best so far after looking at the plans `p2` of a next leg: it is
/// `pick`, at `base` plus the least time of `p2`, if that is less than
/// `fastest_time`.
fn best_with(
    base: i64,
    pick: (i32, (i32, i32)),
    p2: &Vec<(i32, (i32, i32))>,
    fastest: Option<(i32, (i32, i32))>,
    fastest_time: i64,
) -> (r: (Option<(i32, (i32, i32))>, i64))
    requires
        0 <= base <= 2 * i32::MAX,
        forall|j: int| 0 <= j < p2.len() ==> 0 <= (#[trigger] p2@[j]).0 < i32::MAX,
        fastest_time <= i32::MAX,
    ensures
        (r.0, r.1 as int) == (if base + min_time(p2@) < fastest_time {
            (Some(pick), base + min_time(p2@))
        } else {
            (fastest, fastest_time as int)
        }),
        r.1 <= i32::MAX,
{
    let mut best = fastest;
    let mut best_time = fastest_time;
    let mut l: usize = 0;
    while l < p2.len()
        invariant
            0 <= base <= 2 * i32::MAX,
            forall|j: int| 0 <= j < p2.len() ==> 0 <= (#[trigger] p2@[j]).0 < i32::MAX,
            fastest_time <= i32::MAX,
            l <= p2.len(),
            best_time == (if base + min_time(p2@.take(l as int)) < fastest_time {
                base + min_time(p2@.take(l as int))
            } else {
                fastest_time as int
            }),
            best == (if base + min_time(p2@.take(l as int)) < fastest_time {
                Some(pick)
            } else {
                fastest
            }),
        decreases p2.len() - l,
    {
        let t = base + p2[l].0 as i64;
        assert(p2@.take(l + 1).drop_last() =~= p2@.take(l as int));
        if t < best_time {
            best = Some(pick);
            best_time = t;
        }
        l = l + 1;
    }
    assert(p2@.take(p2.len() as int) =~= p2@);
    (best, best_time)
}

/// The plan of the leg from `cur` with velocity `vel` to `a` that looks one
/// leg ahead, to `b`, among `nplan` plans of each (see `la1_pick`).
fn la1_choose(cur: (i32, i32), vel: (i32, i32), a: (i32, i32), b: (i32, i32), nplan: usize) -> (r: Option<
    (i32, (i32, i32)),
>)
    requires
        plans_ok(a.0 - cur.0, a.1 - cur.1, vel, nplan as int),
        fits(b.0 - a.0) && fits(b.1 - a.1),
        forall|k: int|
            0 <= k < plan_list(a.0 - cur.0, a.1 - cur.1, vel, nplan as int).len() ==> plans_ok(
                b.0 - a.0,
                b.1 - a.1,
                (#[trigger] plan_list(a.0 - cur.0, a.1 - cur.1, vel, nplan as int)[k]).1,
                nplan as int,
            ),
    ensures
        r == la1_pick(cur, vel, a, b, nplan as int),
        r matches Some(e) ==> axis_ok(a.0 - cur.0, vel.0 as int, e.1.0 as int, e.0 as int) && axis_ok(
            a.1 - cur.1,
            vel.1 as int,
            e.1.1 as int,
            e.0 as int,
        ),
{
    let ghost d2 = (b.0 - a.0, b.1 - a.1);
    let plan1 = plans_to(cur, vel, a, nplan);
    let ghost p1 = plan1@;
    let mut fastest_time: i64 = i32::MAX as i64;
    let mut fastest: Option<(i32, (i32, i32))> = None;
    let mut k: usize = 0;
    while k < plan1.len()
        invariant
            p1 == plan1@,
            p1 == plan_list(a.0 - cur.0, a.1 - cur.1, vel, nplan as int),
            d2 == (b.0 - a.0, b.1 - a.1),
            forall|j: int| 0 <= j < p1.len() ==> plans_ok(d2.0, d2.1, (#[trigger] p1[j]).1, nplan as int),
            forall|j: int| 0 <= j < p1.len() ==> 0 <= (#[trigger] p1[j]).0 < i32::MAX,
            k <= plan1.len(),
            (fastest, fastest_time as int) == la1_scan(p1, d2, nplan as int, k as int),
        decreases plan1.len() - k,
    {
        let (t1, v1) = plan1[k];
        assert(plans_ok(d2.0, d2.1, p1[k as int].1, nplan as int));
        let plan2 = plans_to(a, v1, b, nplan);
        proof {
            lemma_la1_scan_bound(p1, d2, nplan as int, k as int);
        }
        let (f2, t2) = best_with(t1 as i64, (t1, v1), &plan2, fastest, fastest_time);
        fastest = f2;
        fastest_time = t2;
        k = k + 1;
    }
    proof {
        lemma_la1_scan_member(p1, d2, nplan as int, p1.len() as int);
    }
    fastest
}

/// The keys of the route through the checkpoints in order, from the origin
/// at rest, each leg planned looking one leg ahead among `nplan` plans of
/// each, the last along its first plan (see `la1_keys`). The times of two
/// legs are added as `i64`.
#[verifier::rlimit(40)]
pub fn solve_la1(v: &Vec<(i32, i32)>, nplan: usize) -> (r: String)
    requires
        v.len() >= 1,
        nplan >= 1,
        la1_ok(v@, 0, (0, 0), (0, 0), nplan as int),
    ensures
        r@ == la1_keys(v@, 0, (0, 0), (0, 0), nplan as int),
{
    let mut curpt: (i32, i32) = (0, 0);
    let mut curvel: (i32, i32) = (0, 0);
    let mut buffer = String::new();
    let mut i: usize = 0;
    assert(buffer@ + la1_keys(v@, 0, curpt, curvel, nplan as int) =~= la1_keys(v@, 0, (0, 0), (0, 0), nplan as int));
    while i < v.len() - 1
        invariant
            1 <= v.len(),
            nplan >= 1,
            i <= v.len() - 1,
            la1_ok(v@, i as int, curpt, curvel, nplan as int),
            buffer@ + la1_keys(v@, i as int, curpt, curvel, nplan as int) == la1_keys(v@, 0, (0, 0), (0, 0), nplan as int),
        decreases v.len() - 1 - i,
    {
        proof {
            lemma_la1_step(v@, i as int, curpt, curvel, nplan as int);
        }
        let e = match la1_choose(curpt, curvel, v[i], v[i + 1], nplan) {
            Some(e) => e,
            None => {
                return buffer;
            },
        };
        let ghost before = buffer@;
        leg_keys(curpt, curvel, v[i], e, &mut buffer);
        proof {
            assert(buffer@ + la1_keys(v@, i + 1, v@[i as int], e.1, nplan as int) =~= before + la1_keys(
                v@,
                i as int,
                curpt,
                curvel,
                nplan as int,
            ));
        }
        curpt = v[i];
        curvel = e.1;
        i = i + 1;
    }
    let targetpt = v[v.len() - 1];
    proof {
        lemma_la1_last(v@, i as int, curpt, curvel, nplan as int);
    }
    let ghost before = buffer@;
    let ghost rest = la1_keys(v@, i as int, curpt, curvel, nplan as int);
    let (accl, _vend) = visit_first(curpt, curvel, targetpt);
    let ghost keys = accl@.map_values(|a: (i32, i32)| keypad_char(a));
    assert(keys == rest);
    let encoded = encode_thrust_into_keypad(accl);
    append_str(&mut buffer, encoded.as_str());
    assert(buffer@ == before + rest);
    buffer
}

/// What a plan `p` of the second leg costs with what follows: its time,
/// plus the least time of the `n3` plans of the third leg `d3` from its end
/// velocity (nothing more when there is no third leg).
pub open spec fn tail_time(p: (i32, (i32, i32)), d3: Option<(int, int)>, n3: int) -> int {
    p.0 + match d3 {
        Some(d) => min_time(plan_list(d.0, d.1, p.1, n3)),
        None => 0,
    }
}

/// The least `tail_time` of the plans `ps` (`i32::MAX` when there are
/// none).
pub open spec fn min_tail(ps: Seq<(i32, (i32, i32))>, d3: Option<(int, int)>, n3: int) -> int
    decreases ps.len(),
{
    if ps.len() == 0 {
        i32::MAX as int
    } else {
        let m = min_tail(ps.drop_last(), d3, n3);
        let t = tail_time(ps.last(), d3, n3);
        if t < m {
            t
        } else {
            m
        }
    }
}

/// Scanning the first `k` plans `p1` of a leg: the first one whose time,
/// plus the least `tail_time` of the `n2` plans of the next leg `d2` from
/// its end velocity, is less than that of every one before it, with that
/// sum; `(None, i32::MAX)` before any.
pub open spec fn la2_scan(
    p1: Seq<(i32, (i32, i32))>,
    d2: (int, int),
    n2: int,
    d3: Option<(int, int)>,
    n3: int,
    k: int,
) -> (Option<(i32, (i32, i32))>, int)
    decreases k,
{
    if k <= 0 {
        (None, i32::MAX as int)
    } else {
        let (b, ft) = la2_scan(p1, d2, n2, d3, n3, k - 1);
        let e = p1[k - 1];
        let m = e.0 + min_tail(plan_list(d2.0, d2.1, e.1, n2), d3, n3);
        if m < ft {
            (Some(e), m)
        } else {
            (b, ft)
        }
    }
}

/// The leg after the `i`-th checkpoint's next one, if there is one.
pub open spec fn third_leg(cps: Seq<(i32, i32)>, i: int) -> Option<(int, int)> {
    if i + 2 < cps.len() {
        Some((cps[i + 2].0 - cps[i + 1].0, cps[i + 2].1 - cps[i + 1].1))
    } else {
        None
    }
}

/// The plan of the leg from `cur` with velocity `vel` to the `i`-th
/// checkpoint that looks two legs ahead: among `2 * nplan` plans of the
/// leg, `nplan` of the next and `nplan / 2` of the one after.
pub open spec fn la2_pick(cps: Seq<(i32, i32)>, i: int, cur: (i32, i32), vel: (i32, i32), nplan: int) -> Option<
    (i32, (i32, i32)),
> {
    let p1 = plan_list(cps[i].0 - cur.0, cps[i].1 - cur.1, vel, 2 * nplan);
    la2_scan(
        p1,
        (cps[i + 1].0 - cps[i].0, cps[i + 1].1 - cps[i].1),
        nplan,
        third_leg(cps, i),
        nplan / 2,
        p1.len() as int,
    ).0
}

/// The plans of the next legs from the plans `p1` can be had.
pub open spec fn la2_nexts_ok(p1: Seq<(i32, (i32, i32))>, d2: (int, int), d3: Option<(int, int)>, nplan: int) -> bool {
    forall|k: int|
        0 <= k < p1.len() ==> {
            &&& plans_ok(d2.0, d2.1, (#[trigger] p1[k]).1, nplan)
            &&& d3 matches Some(d) ==> fits(d.0) && fits(d.1) && forall|l: int|
                0 <= l < plan_list(d2.0, d2.1, p1[k].1, nplan).len() ==> plans_ok(
                    d.0,
                    d.1,
                    (#[trigger] plan_list(d2.0, d2.1, p1[k].1, nplan)[l]).1,
                    nplan / 2,
                )
        }
}

/// Each leg from the `i`-th checkpoint on can be planned looking two legs
/// ahead, and the last leg along its first plan.
#[verifier::opaque]
pub open spec fn la2_ok(cps: Seq<(i32, i32)>, i: int, cur: (i32, i32), vel: (i32, i32), nplan: int) -> bool
    decreases cps.len() - i,
{
    if i < 0 || i >= cps.len() {
        true
    } else if i + 1 == cps.len() {
        plans_ok(cps[i].0 - cur.0, cps[i].1 - cur.1, vel, 1)
    } else {
        let p1 = plan_list(cps[i].0 - cur.0, cps[i].1 - cur.1, vel, 2 * nplan);
        let d2 = (cps[i + 1].0 - cps[i].0, cps[i + 1].1 - cps[i].1);
        &&& plans_ok(cps[i].0 - cur.0, cps[i].1 - cur.1, vel, 2 * nplan)
        &&& fits(d2.0) && fits(d2.1)
        &&& la2_nexts_ok(p1, d2, third_leg(cps, i), nplan)
        &&& la2_pick(cps, i, cur, vel, nplan) is Some
        &&& la2_ok(cps, i + 1, cps[i], la2_pick(cps, i, cur, vel, nplan).unwrap().1, nplan)
    }
}

/// The keys of the legs from the `i`-th checkpoint on, each planned looking
/// two legs ahead, the last along its first plan.
#[verifier::opaque]
pub open spec fn la2_keys(cps: Seq<(i32, i32)>, i: int, cur: (i32, i32), vel: (i32, i32), nplan: int) -> Seq<char>
    decreases cps.len() - i,
{
    if i < 0 || i >= cps.len() {
        Seq::empty()
    } else if i + 1 == cps.len() {
        let p = first_plan(cps[i].0 - cur.0, cps[i].1 - cur.1, vel);
        visit_thrusts(cur, vel, cps[i], p.1, p.0 as int).map_values(|a: (i32, i32)| keypad_char(a))
    } else {
        let e = la2_pick(cps, i, cur, vel, nplan).unwrap();
        visit_thrusts(cur, vel, cps[i], e.1, e.0 as int).map_values(|a: (i32, i32)| keypad_char(a)) + la2_keys(
            cps,
            i + 1,
            cps[i],
            e.1,
            nplan,
        )
    }
}

proof fn lemma_la2_step(cps: Seq<(i32, i32)>, i: int, cur: (i32, i32), vel: (i32, i32), nplan: int)
    requires
        la2_ok(cps, i, cur, vel, nplan),
        0 <= i,
        i + 1 < cps.len(),
    ensures
        plans_ok(cps[i].0 - cur.0, cps[i].1 - cur.1, vel, 2 * nplan),
        fits(cps[i + 1].0 - cps[i].0) && fits(cps[i + 1].1 - cps[i].1),
        la2_nexts_ok(
            plan_list(cps[i].0 - cur.0, cps[i].1 - cur.1, vel, 2 * nplan),
            (cps[i + 1].0 - cps[i].0, cps[i + 1].1 - cps[i].1),
            third_leg(cps, i),
            nplan,
        ),
        la2_pick(cps, i, cur, vel, nplan) is Some,
        la2_ok(cps, i + 1, cps[i], la2_pick(cps, i, cur, vel, nplan).unwrap().1, nplan),
        ({
            let e = la2_pick(cps, i, cur, vel, nplan).unwrap();
            la2_keys(cps, i, cur, vel, nplan) == visit_thrusts(cur, vel, cps[i], e.1, e.0 as int).map_values(
                |a: (i32, i32)| keypad_char(a),
            ) + la2_keys(cps, i + 1, cps[i], e.1, nplan)
        }),
{
    reveal(la2_ok);
    reveal(la2_keys);
}

proof fn lemma_la2_last(cps: Seq<(i32, i32)>, i: int, cur: (i32, i32), vel: (i32, i32), nplan: int)
    requires
        la2_ok(cps, i, cur, vel, nplan),
        0 <= i,
        i + 1 == cps.len(),
    ensures
        plans_ok(cps[i].0 - cur.0, cps[i].1 - cur.1, vel, 1),
        ({
            let p = first_plan(cps[i].0 - cur.0, cps[i].1 - cur.1, vel);
            la2_keys(cps, i, cur, vel, nplan) == visit_thrusts(cur, vel, cps[i], p.1, p.0 as int).map_values(
                |a: (i32, i32)| keypad_char(a),
            )
        }),
{
    reveal(la2_ok);
    reveal(la2_keys);
}

proof fn lemma_la2_scan(
    p1: Seq<(i32, (i32, i32))>,
    d2: (int, int),
    n2: int,
    d3: Option<(int, int)>,
    n3: int,
    k: int,
)
    requires
        0 <= k <= p1.len(),
    ensures
        la2_scan(p1, d2, n2, d3, n3, k).1 <= i32::MAX,
        la2_scan(p1, d2, n2, d3, n3, k).0 matches Some(e) ==> exists|j: int| 0 <= j < k && p1[j] == e,
    decreases k,
{
    if k > 0 {
        lemma_la2_scan(p1, d2, n2, d3, n3, k - 1);
    }
}

/// The best so far after looking at the plans `p2` of the second leg from
/// the plan `(t1, v1)`, each with the plans of the third leg `c` after it
/// (see `min_tail`).
fn tail_best(
    t1: i32,
    v1: (i32, i32),
    b: (i32, i32),
    c: Option<(i32, i32)>,
    n3: usize,
    p2: &Vec<(i32, (i32, i32))>,
    fastest: Option<(i32, (i32, i32))>,
    fastest_time: i64,
) -> (r: (Option<(i32, (i32, i32))>, i64))
    requires
        0 <= t1 < i32::MAX,
        forall|j: int| 0 <= j < p2.len() ==> 0 <= (#[trigger] p2@[j]).0 < i32::MAX,
        fastest_time <= i32::MAX,
        c matches Some(cc) ==> fits(cc.0 - b.0) && fits(cc.1 - b.1) && forall|l: int|
            0 <= l < p2.len() ==> plans_ok(cc.0 - b.0, cc.1 - b.1, (#[trigger] p2@[l]).1, n3 as int),
    ensures
        ({
            let d3 = match c {
                Some(cc) => Some((cc.0 - b.0, cc.1 - b.1)),
                None => None,
            };
            (r.0, r.1 as int) == (if t1 + min_tail(p2@, d3, n3 as int) < fastest_time {
                (Some((t1, v1)), t1 + min_tail(p2@, d3, n3 as int))
            } else {
                (fastest, fastest_time as int)
            })
        }),
        r.1 <= i32::MAX,
{
    let ghost d3 = match c {
        Some(cc) => Some((cc.0 - b.0, cc.1 - b.1)),
        None => None,
    };
    let mut best = fastest;
    let mut best_time = fastest_time;
    let mut l: usize = 0;
    while l < p2.len()
        invariant
            0 <= t1 < i32::MAX,
            forall|j: int| 0 <= j < p2.len() ==> 0 <= (#[trigger] p2@[j]).0 < i32::MAX,
            fastest_time <= i32::MAX,
            d3 == (match c {
                Some(cc) => Some((cc.0 - b.0, cc.1 - b.1)),
                None => None::<(int, int)>,
            }),
            c matches Some(cc) ==> fits(cc.0 - b.0) && fits(cc.1 - b.1) && forall|j: int|
                0 <= j < p2.len() ==> plans_ok(cc.0 - b.0, cc.1 - b.1, (#[trigger] p2@[j]).1, n3 as int),
            l <= p2.len(),
            best_time == (if t1 + min_tail(p2@.take(l as int), d3, n3 as int) < fastest_time {
                t1 + min_tail(p2@.take(l as int), d3, n3 as int)
            } else {
                fastest_time as int
            }),
            best == (if t1 + min_tail(p2@.take(l as int), d3, n3 as int) < fastest_time {
                Some((t1, v1))
            } else {
                fastest
            }),
        decreases p2.len() - l,
    {
        let (t2, v2) = p2[l];
        let p3 = match c {
            Some(cc) => {
                assert(plans_ok(cc.0 - b.0, cc.1 - b.1, p2@[l as int].1, n3 as int));
                plans_to(b, v2, cc, n3)
            },
            None => {
                let mut only: Vec<(i32, (i32, i32))> = Vec::new();
                only.push((0, (0, 0)));
                assert(only@.drop_last() =~= Seq::<(i32, (i32, i32))>::empty());
                assert(only@.last().0 == 0);
                assert(min_time(only@.drop_last()) == i32::MAX as int);
                assert(min_time(only@) == 0);
                only
            },
        };
        proof {
            assert(tail_time(p2@[l as int], d3, n3 as int) == t2 + min_time(p3@));
            assert(p2@.take(l + 1).drop_last() =~= p2@.take(l as int));
            assert(p2@.take(l + 1).last() == p2@[l as int]);
        }
        let (nb, nt) = best_with(t1 as i64 + t2 as i64, (t1, v1), &p3, best, best_time);
        best = nb;
        best_time = nt;
        l = l + 1;
    }
    assert(p2@.take(p2.len() as int) =~= p2@);
    (best, best_time)
}

/// The plan of the leg from `cur` with velocity `vel` to `a` that looks two
/// legs ahead, to `b` and then `c` if there is one (see `la2_pick`).
fn la2_choose(
    cur: (i32, i32),
    vel: (i32, i32),
    a: (i32, i32),
    b: (i32, i32),
    c: Option<(i32, i32)>,
    nplan: usize,
) -> (r: Option<(i32, (i32, i32))>)
    requires
        nplan <= usize::MAX / 2,
        plans_ok(a.0 - cur.0, a.1 - cur.1, vel, 2 * nplan),
        fits(b.0 - a.0) && fits(b.1 - a.1),
        la2_nexts_ok(
            plan_list(a.0 - cur.0, a.1 - cur.1, vel, 2 * nplan),
            (b.0 - a.0, b.1 - a.1),
            match c {
                Some(cc) => Some((cc.0 - b.0, cc.1 - b.1)),
                None => None,
            },
            nplan as int,
        ),
    ensures
        ({
            let p1 = plan_list(a.0 - cur.0, a.1 - cur.1, vel, 2 * nplan);
            let d3 = match c {
                Some(cc) => Some((cc.0 - b.0, cc.1 - b.1)),
                None => None,
            };
            r == la2_scan(p1, (b.0 - a.0, b.1 - a.1), nplan as int, d3, (nplan / 2) as int, p1.len() as int).0
        }),
        r matches Some(e) ==> axis_ok(a.0 - cur.0, vel.0 as int, e.1.0 as int, e.0 as int) && axis_ok(
            a.1 - cur.1,
            vel.1 as int,
            e.1.1 as int,
            e.0 as int,
        ),
{
    let ghost d2 = (b.0 - a.0, b.1 - a.1);
    let ghost d3 = match c {
        Some(cc) => Some((cc.0 - b.0, cc.1 - b.1)),
        None => None,
    };
    let plan1 = plans_to(cur, vel, a, nplan * 2);
    let ghost p1 = plan1@;
    let n3 = nplan / 2;
    let mut fastest_time: i64 = i32::MAX as i64;
    let mut fastest: Option<(i32, (i32, i32))> = None;
    let mut k: usize = 0;
    while k < plan1.len()
        invariant
            p1 == plan1@,
            p1 == plan_list(a.0 - cur.0, a.1 - cur.1, vel, 2 * nplan),
            d2 == (b.0 - a.0, b.1 - a.1),
            d3 == (match c {
                Some(cc) => Some((cc.0 - b.0, cc.1 - b.1)),
                None => None::<(int, int)>,
            }),
            n3 == nplan / 2,
            la2_nexts_ok(p1, d2, d3, nplan as int),
            forall|j: int| 0 <= j < p1.len() ==> 0 <= (#[trigger] p1[j]).0 < i32::MAX,
            k <= plan1.len(),
            (fastest, fastest_time as int) == la2_scan(p1, d2, nplan as int, d3, n3 as int, k as int),
        decreases plan1.len() - k,
    {
        let (t1, v1) = plan1[k];
        assert(plans_ok(d2.0, d2.1, p1[k as int].1, nplan as int));
        let plan2 = plans_to(a, v1, b, nplan);
        proof {
            lemma_la2_scan(p1, d2, nplan as int, d3, n3 as int, k as int);
        }
        let (f2, t2) = tail_best(t1, v1, b, c, n3, &plan2, fastest, fastest_time);
        fastest = f2;
        fastest_time = t2;
        k = k + 1;
    }
    proof {
        lemma_la2_scan(p1, d2, nplan as int, d3, n3 as int, p1.len() as int);
    }
    fastest
}

/// The keys of the route through the checkpoints in order, from the origin
/// at rest, each leg planned looking two legs ahead (see `la2_pick`), the
/// last along its first plan (see `la2_keys`). The times of the legs are
/// added as `i64`.
#[verifier::rlimit(40)]
pub fn solve_la2(v: &Vec<(i32, i32)>, nplan: usize) -> (r: String)
    requires
        v.len() >= 1,
        nplan <= usize::MAX / 2,
        la2_ok(v@, 0, (0, 0), (0, 0), nplan as int),
    ensures
        r@ == la2_keys(v@, 0, (0, 0), (0, 0), nplan as int),
{
    let mut curpt: (i32, i32) = (0, 0);
    let mut curvel: (i32, i32) = (0, 0);
    let mut buffer = String::new();
    let mut i: usize = 0;
    assert(buffer@ + la2_keys(v@, 0, curpt, curvel, nplan as int) =~= la2_keys(v@, 0, (0, 0), (0, 0), nplan as int));
    while i < v.len() - 1
        invariant
            1 <= v.len(),
            nplan <= usize::MAX / 2,
            i <= v.len() - 1,
            la2_ok(v@, i as int, curpt, curvel, nplan as int),
            buffer@ + la2_keys(v@, i as int, curpt, curvel, nplan as int) == la2_keys(v@, 0, (0, 0), (0, 0), nplan as int),
        decreases v.len() - 1 - i,
    {
        proof {
            lemma_la2_step(v@, i as int, curpt, curvel, nplan as int);
        }
        let c = if i != v.len() - 2 {
            Some(v[i + 2])
        } else {
            None
        };
        assert(match c {
            Some(cc) => Some((cc.0 - v@[i + 1].0, cc.1 - v@[i + 1].1)),
            None => None,
        } == third_leg(v@, i as int));
        let e = match la2_choose(curpt, curvel, v[i], v[i + 1], c, nplan) {
            Some(e) => e,
            None => {
                return buffer;
            },
        };
        let ghost before = buffer@;
        leg_keys(curpt, curvel, v[i], e, &mut buffer);
        proof {
            assert(buffer@ + la2_keys(v@, i + 1, v@[i as int], e.1, nplan as int) =~= before + la2_keys(
                v@,
                i as int,
                curpt,
                curvel,
                nplan as int,
            ));
        }
        curpt = v[i];
        curvel = e.1;
        i = i + 1;
    }
    let targetpt = v[v.len() - 1];
    proof {
        lemma_la2_last(v@, i as int, curpt, curvel, nplan as int);
    }
    let ghost before = buffer@;
    let ghost rest = la2_keys(v@, i as int, curpt, curvel, nplan as int);
    let (accl, _vend) = visit_first(curpt, curvel, targetpt);
    let ghost keys = accl@.map_values(|a: (i32, i32)| keypad_char(a));
    assert(keys == rest);
    let encoded = encode_thrust_into_keypad(accl);
    append_str(&mut buffer, encoded.as_str());
    assert(buffer@ == before + rest);
    buffer
}

} // verus!
