use vstd::prelude::*;
use vstd::string::StringSliceAdditionalSpecFns;

use crate::text::push_char;

verus! {

// ---------------------------------------------------------------------------
// Integer helpers
// ---------------------------------------------------------------------------

/// The absolute value of `x`.
pub open spec fn iabs(x: int) -> int {
    if x < 0 {
        -x
    } else {
        x
    }
}

/// The sign of `x`: `1`, `0` or `-1`.
pub open spec fn sign(x: int) -> int {
    if x > 0 {
        1
    } else if x < 0 {
        -1
    } else {
        0
    }
}

/// The larger of `a` and `b`.
pub open spec fn imax(a: int, b: int) -> int {
    if a >= b {
        a
    } else {
        b
    }
}

/// The smaller of `a` and `b`.
pub open spec fn imin(a: int, b: int) -> int {
    if a <= b {
        a
    } else {
        b
    }
}

/// `x` is a value of `i32`.
pub open spec fn fits(x: int) -> bool {
    i32::MIN <= x <= i32::MAX
}

/// `x` is a value of `i32` whose absolute value is one too.
pub open spec fn abs_fits(x: int) -> bool {
    -i32::MAX <= x <= i32::MAX
}

pub(crate) fn abs_i32(x: i32) -> (r: i32)
    requires
        x != i32::MIN,
    ensures
        r == iabs(x as int),
{
    if x < 0 {
        -x
    } else {
        x
    }
}

pub(crate) fn sign_i32(x: i32) -> (r: i32)
    ensures
        r == sign(x as int),
{
    if x > 0 {
        1
    } else if x < 0 {
        -1
    } else {
        0
    }
}

pub(crate) fn max_i32(a: i32, b: i32) -> (r: i32)
    ensures
        r == imax(a as int, b as int),
{
    if a >= b {
        a
    } else {
        b
    }
}

pub(crate) fn min_i32(a: i32, b: i32) -> (r: i32)
    ensures
        r == imin(a as int, b as int),
{
    if a <= b {
        a
    } else {
        b
    }
}

// ---------------------------------------------------------------------------
// Cost estimates
// ---------------------------------------------------------------------------

/// The Chebyshev distance between `p1` and `p2`.
pub open spec fn chebyshev(p1: (i32, i32), p2: (i32, i32)) -> int {
    imax(iabs(p1.0 - p2.0), iabs(p1.1 - p2.1))
}

/// Lower-bound-like cost of the Chebyshev distance between two points.
pub fn surrogate_cost(p1: (i32, i32), p2: (i32, i32)) -> (r: i32)
    requires
        abs_fits(p1.0 - p2.0),
        abs_fits(p1.1 - p2.1),
    ensures
        r == chebyshev(p1, p2),
{
    max_i32(abs_i32(p1.0 - p2.0), abs_i32(p1.1 - p2.1))
}

/// Whether the velocity `v` along an axis points away from the remaining
/// distance `d` (their signs are opposite and both are nonzero).
pub open spec fn heads_away(d: int, v: int) -> bool {
    iabs(sign(d) - sign(v)) > 1
}

/// Estimated number of steps to cover the distance `d` along one axis with
/// velocity `v`: the distance divided by the speed (at least one), or, when
/// the velocity points away, the distance plus a penalty of `v * v + 1`.
pub open spec fn axis_cost(d: int, v: int) -> int {
    if heads_away(d, v) {
        iabs(d) + v * v + 1
    } else {
        iabs(d) / imax(1, iabs(v))
    }
}

/// The arithmetic of `axis_cost` stays within `i32`.
pub open spec fn axis_cost_fits(d: int, v: int) -> bool {
    &&& abs_fits(d)
    &&& abs_fits(v)
    &&& heads_away(d, v) ==> iabs(d) + v * v + 1 <= i32::MAX
}

fn axis_cost_i32(d: i32, v: i32) -> (r: i32)
    requires
        axis_cost_fits(d as int, v as int),
    ensures
        r == axis_cost(d as int, v as int),
{
    let gap = abs_i32(sign_i32(d) - sign_i32(v));
    let ad = abs_i32(d);
    let av = abs_i32(v);
    if gap <= 1 {
        let speed = max_i32(1, av);
        ad / speed
    } else {
        assert(av * av == v * v) by (nonlinear_arith)
            requires
                av == iabs(v as int),
        ;
        assert(av * av <= i32::MAX);
        let pen = av * av + 1;
        ad / 1 + pen
    }
}

/// Estimated number of steps from `curpt` with velocity `curv` to `goal`: the
/// larger of the two axis estimates (`axis_cost`).
pub open spec fn velocity_cost(curpt: (i32, i32), curv: (i32, i32), goal: (i32, i32)) -> int {
    imax(axis_cost(goal.0 - curpt.0, curv.0 as int), axis_cost(goal.1 - curpt.1, curv.1 as int))
}

/// The arithmetic of `velocity_cost` stays within `i32`.
pub open spec fn velocity_cost_fits(
    curpt: (i32, i32),
    curv: (i32, i32),
    goal: (i32, i32),
) -> bool {
    &&& axis_cost_fits(goal.0 - curpt.0, curv.0 as int)
    &&& axis_cost_fits(goal.1 - curpt.1, curv.1 as int)
}

/// Estimated number of steps from `curpt` with velocity `curv` to `goal`.
pub fn surrogate_cost_with_velocity(curpt: (i32, i32), curv: (i32, i32), goal: (i32, i32)) -> (r:
    i32)
    requires
        velocity_cost_fits(curpt, curv, goal),
    ensures
        r == velocity_cost(curpt, curv, goal),
{
    let dx = goal.0 - curpt.0;
    let dy = goal.1 - curpt.1;
    max_i32(axis_cost_i32(dx, curv.0), axis_cost_i32(dy, curv.1))
}

// ---------------------------------------------------------------------------
// Keypad encoding of thrusts
// ---------------------------------------------------------------------------

/// The keypad index of a thrust: `(ax + 1) + (ay + 1) * 3`.
pub open spec fn keypad_index(a: (i32, i32)) -> int {
    (a.0 + 1) + (a.1 + 1) * 3
}

/// The keypad character of a thrust: `'1' .. '9'` by its index.
pub open spec fn keypad_char(a: (i32, i32)) -> char {
    ('1' as u32 + keypad_index(a)) as char
}

/// The thrust has a key: its index is in `0 .. 9`, computed without overflow.
pub open spec fn has_key(a: (i32, i32)) -> bool {
    &&& fits(a.0 + 1)
    &&& fits((a.1 + 1) * 3)
    &&& 0 <= keypad_index(a) < 9
}

/// Writes thrusts as keypad characters.
pub fn encode_thrust_into_keypad(thrusts: Vec<(i32, i32)>) -> (r: String)
    requires
        forall|i: int| 0 <= i < thrusts.len() ==> #[trigger] has_key(thrusts@[i]),
    ensures
        r@ == thrusts@.map_values(|a: (i32, i32)| keypad_char(a)),
{
    let mut r = String::new();
    let mut i: usize = 0;
    while i < thrusts.len()
        invariant
            i <= thrusts.len(),
            forall|j: int| 0 <= j < thrusts.len() ==> #[trigger] has_key(thrusts@[j]),
            r@ == thrusts@.take(i as int).map_values(|a: (i32, i32)| keypad_char(a)),
        decreases thrusts.len() - i,
    {
        let a = thrusts[i];
        assert(has_key(thrusts@[i as int]));
        let ix = (a.0 + 1) + (a.1 + 1) * 3;
        let c = (('1' as u8) + (ix as u8)) as char;
        push_char(&mut r, c);
        assert(thrusts@.take(i + 1).map_values(|a: (i32, i32)| keypad_char(a)) =~= thrusts@.take(
            i as int,
        ).map_values(|a: (i32, i32)| keypad_char(a)).push(keypad_char(a)));
        i = i + 1;
    }
    assert(thrusts@.take(thrusts.len() as int) =~= thrusts@);
    r
}

/// The thrust of a keypad byte `b` (`'1'` is `(-1, -1)`, `'9'` is `(1, 1)`).
pub open spec fn key_thrust(b: u8) -> (i32, i32) {
    let n = b - 49;
    ((n % 3 - 1) as i32, (n / 3 - 1) as i32)
}

/// Reads thrusts from keypad characters, one per byte of `s`.
pub fn decode_thrust_from_keypad(s: &str) -> (r: Vec<(i32, i32)>)
    requires
        forall|i: int| 0 <= i < s.spec_bytes().len() ==> #[trigger] s.spec_bytes()[i] >= 49,
    ensures
        r@ == s.spec_bytes().map_values(|b: u8| key_thrust(b)),
{
    let bytes = s.as_bytes();
    let mut r: Vec<(i32, i32)> = Vec::new();
    let mut i: usize = 0;
    while i < bytes.len()
        invariant
            i <= bytes.len(),
            bytes@ == s.spec_bytes(),
            forall|j: int| 0 <= j < bytes@.len() ==> #[trigger] bytes@[j] >= 49,
            r@ == bytes@.take(i as int).map_values(|b: u8| key_thrust(b)),
        decreases bytes.len() - i,
    {
        let c = bytes[i];
        assert(c >= 49);
        let n = (c - 49) as i32;
        let dx = n % 3 - 1;
        let dy = n / 3 - 1;
        r.push((dx, dy));
        assert(bytes@.take(i + 1).map_values(|b: u8| key_thrust(b)) =~= bytes@.take(
            i as int,
        ).map_values(|b: u8| key_thrust(b)).push(key_thrust(c)));
        i = i + 1;
    }
    assert(bytes@.take(bytes.len() as int) =~= bytes@);
    r
}

/// Decoding the keypad character of a thrust gives the thrust back, for every
/// thrust of at most one unit along each axis.
pub proof fn law_keypad_roundtrip(a: (i32, i32))
    requires
        -1 <= a.0 <= 1,
        -1 <= a.1 <= 1,
    ensures
        has_key(a),
        (keypad_char(a) as u32) < 128,
        key_thrust(keypad_char(a) as u32 as u8) == a,
{
    assert('1' as u32 == 49);
    let n = keypad_index(a);
    assert(0 <= n < 9);
    assert(keypad_char(a) as u32 == 49 + n);
    assert(n % 3 == a.0 + 1 && n / 3 == a.1 + 1);
}

// ---------------------------------------------------------------------------
// Motion
// ---------------------------------------------------------------------------

/// Velocity along one axis after the first `k` thrusts of `a`, from `v0`.
pub open spec fn vel_at(v0: int, a: Seq<i32>, k: nat) -> int
    decreases k,
{
    if k == 0 {
        v0
    } else {
        vel_at(v0, a, (k - 1) as nat) + a[k - 1]
    }
}

/// Position along one axis after the first `k` thrusts of `a`, from `p0` with
/// velocity `v0`: each step adds the thrust to the velocity, then the velocity
/// to the position.
pub open spec fn pos_at(p0: int, v0: int, a: Seq<i32>, k: nat) -> int
    decreases k,
{
    if k == 0 {
        p0
    } else {
        pos_at(p0, v0, a, (k - 1) as nat) + vel_at(v0, a, k)
    }
}

/// The horizontal components of the thrusts.
pub open spec fn xs(order: Seq<(i32, i32)>) -> Seq<i32> {
    order.map_values(|a: (i32, i32)| a.0)
}

/// The vertical components of the thrusts.
pub open spec fn ys(order: Seq<(i32, i32)>) -> Seq<i32> {
    order.map_values(|a: (i32, i32)| a.1)
}

/// Position and velocity after the first `k` thrusts of `order`.
pub open spec fn state_at(p: (i32, i32), v: (i32, i32), order: Seq<(i32, i32)>, k: nat) -> (
    (int, int),
    (int, int),
) {
    (
        (pos_at(p.0 as int, v.0 as int, xs(order), k), pos_at(p.1 as int, v.1 as int, ys(order), k)),
        (vel_at(v.0 as int, xs(order), k), vel_at(v.1 as int, ys(order), k)),
    )
}

/// Every position and velocity along the way is a value of `i32`.
pub open spec fn motion_fits(p: (i32, i32), v: (i32, i32), order: Seq<(i32, i32)>) -> bool {
    forall|k: nat|
        k <= order.len() ==> {
            let s = #[trigger] state_at(p, v, order, k);
            fits(s.0.0) && fits(s.0.1) && fits(s.1.0) && fits(s.1.1)
        }
}

/// The state `(position, velocity)` after each thrust of `order`, from `inip`
/// with velocity `iniv`.
pub fn simulate(inip: (i32, i32), iniv: (i32, i32), order: &Vec<(i32, i32)>) -> (r: Vec<
    ((i32, i32), (i32, i32)),
>)
    requires
        motion_fits(inip, iniv, order@),
    ensures
        r.len() == order.len(),
        forall|k: int|
            0 <= k < r.len() ==> {
                let s = state_at(inip, iniv, order@, (k + 1) as nat);
                &&& (#[trigger] r@[k]).0.0 == s.0.0
                &&& r@[k].0.1 == s.0.1
                &&& r@[k].1.0 == s.1.0
                &&& r@[k].1.1 == s.1.1
            },
{
    let mut r: Vec<((i32, i32), (i32, i32))> = Vec::new();
    let mut p = inip;
    let mut v = iniv;
    let mut i: usize = 0;
    while i < order.len()
        invariant
            i <= order.len(),
            motion_fits(inip, iniv, order@),
            r.len() == i,
            p.0 == state_at(inip, iniv, order@, i as nat).0.0,
            p.1 == state_at(inip, iniv, order@, i as nat).0.1,
            v.0 == state_at(inip, iniv, order@, i as nat).1.0,
            v.1 == state_at(inip, iniv, order@, i as nat).1.1,
            forall|k: int|
                0 <= k < r.len() ==> {
                    let s = state_at(inip, iniv, order@, (k + 1) as nat);
                    &&& (#[trigger] r@[k]).0.0 == s.0.0
                    &&& r@[k].0.1 == s.0.1
                    &&& r@[k].1.0 == s.1.0
                    &&& r@[k].1.1 == s.1.1
                },
        decreases order.len() - i,
    {
        let acc = order[i];
        let ghost s = state_at(inip, iniv, order@, (i + 1) as nat);
        assert(xs(order@)[i as int] == acc.0);
        assert(ys(order@)[i as int] == acc.1);
        assert(fits(s.0.0) && fits(s.0.1) && fits(s.1.0) && fits(s.1.1));
        v = (v.0 + acc.0, v.1 + acc.1);
        p = (p.0 + v.0, p.1 + v.1);
        r.push((p, v));
        i = i + 1;
    }
    r
}

// ---------------------------------------------------------------------------
// Reachable positions along one axis
// ---------------------------------------------------------------------------

/// `1 + 2 + ... + t`.
pub open spec fn tri(t: int) -> int {
    t * (t + 1) / 2
}

/// The positions (relative, inclusive range) that can be reached along one
/// axis in `t` steps from velocity `v`.
pub open spec fn available_xs(v: int, t: int) -> (int, int) {
    (v * t - tri(t), v * t + tri(t))
}

/// The arithmetic of `available_xs` stays within `i32`.
pub open spec fn xs_fits(v: int, t: int) -> bool {
    &&& fits(t + 1)
    &&& fits(t * (t + 1))
    &&& fits(v * t)
    &&& fits(v * t - tri(t))
    &&& fits(v * t + tri(t))
}

/// The relative position range (inclusive) reachable along one axis at time `t`.
pub fn get_oneaxis_available_xs(v: i32, t: i32) -> (r: (i32, i32))
    requires
        xs_fits(v as int, t as int),
    ensures
        r.0 == available_xs(v as int, t as int).0,
        r.1 == available_xs(v as int, t as int).1,
{
    assert(t * (t + 1) >= 0) by (nonlinear_arith);
    let delta = t * (t + 1) / 2;
    (v * t - delta, v * t + delta)
}

/// `dx` is reachable in exactly `t` steps from velocity `v`.
pub open spec fn reachable_at(dx: int, v: int, t: int) -> bool {
    available_xs(v, t).0 <= dx <= available_xs(v, t).1
}

/// `t` is a time at which `dx` is reachable, and the arithmetic up to it
/// stays within `i32`.
pub open spec fn reachable_in_range(dx: int, v: int, t: int) -> bool {
    &&& 0 <= t
    &&& reachable_at(dx, v, t)
    &&& forall|u: int| 0 <= u <= t ==> #[trigger] xs_fits(v, u)
}

/// Whether `xs_fits(v, t)` holds, for `t >= 0`.
pub(crate) fn xs_fits_check(v: i32, t: i32) -> (r: bool)
    requires
        0 <= t,
    ensures
        r == xs_fits(v as int, t as int),
{
    let ti = t as i128;
    let vi = v as i128;
    assert(0 <= ti * (ti + 1) <= 0x8000_0000 * 0x8000_0001) by (nonlinear_arith)
        requires
            0 <= ti <= 0x7fff_ffff,
    ;
    assert(-0x8000_0000 * 0x8000_0000 <= vi * ti <= 0x8000_0000 * 0x8000_0000) by (nonlinear_arith)
        requires
            0 <= ti <= 0x7fff_ffff,
            -0x8000_0000 <= vi <= 0x7fff_ffff,
    ;
    let tt = ti * (ti + 1);
    let vt = vi * ti;
    let lo = i32::MIN as i128;
    let hi = i32::MAX as i128;
    lo <= ti + 1 && ti + 1 <= hi && lo <= tt && tt <= hi && lo <= vt && vt <= hi && lo <= vt - tt / 2 && vt - tt
        / 2 <= hi && lo <= vt + tt / 2 && vt + tt / 2 <= hi
}

/// `get_first_available_t` where some time reaches `dx` with the arithmetic
/// up to it within `i32`; `None` where there is no such time.
pub fn get_first_available_t_checked(dx: i32, vinit: i32) -> (r: Option<i32>)
    ensures
        match r {
            Some(t) => {
                &&& 0 <= t
                &&& reachable_at(dx as int, vinit as int, t as int)
                &&& forall|u: int| 0 <= u < t ==> !reachable_at(dx as int, vinit as int, u)
            },
            None => !exists|t: int| reachable_in_range(dx as int, vinit as int, t),
        },
{
    let mut t: i32 = 0;
    loop
        invariant
            0 <= t,
            forall|u: int| 0 <= u < t ==> #[trigger] xs_fits(vinit as int, u),
            forall|u: int| 0 <= u < t ==> !reachable_at(dx as int, vinit as int, u),
        decreases i32::MAX - t,
    {
        if !xs_fits_check(vinit, t) {
            assert forall|w: int| !reachable_in_range(dx as int, vinit as int, w) by {
                if reachable_in_range(dx as int, vinit as int, w) {
                    if w >= t {
                        assert(xs_fits(vinit as int, t as int));
                    } else {
                        assert(!reachable_at(dx as int, vinit as int, w));
                    }
                }
            }
            return None;
        }
        let r = get_oneaxis_available_xs(vinit, t);
        if dx >= r.0 && dx <= r.1 {
            assert(reachable_in_range(dx as int, vinit as int, t as int));
            return Some(get_first_available_t(dx, vinit));
        }
        t = t + 1;
    }
}

/// The first time `t >= 0` at which `dx` is reachable from velocity `vinit`.
pub fn get_first_available_t(dx: i32, vinit: i32) -> (r: i32)
    requires
        exists|t: int| reachable_in_range(dx as int, vinit as int, t),
    ensures
        0 <= r,
        reachable_at(dx as int, vinit as int, r as int),
        forall|u: int| 0 <= u < r ==> !reachable_at(dx as int, vinit as int, u),
{
    let ghost w = choose|t: int| reachable_in_range(dx as int, vinit as int, t);
    let mut t: i32 = 0;
    loop
        invariant
            0 <= t <= w,
            reachable_in_range(dx as int, vinit as int, w),
            forall|u: int| 0 <= u < t ==> !reachable_at(dx as int, vinit as int, u),
        decreases w - t,
    {
        assert(xs_fits(vinit as int, t as int));
        let r = get_oneaxis_available_xs(vinit, t);
        if dx >= r.0 && dx <= r.1 {
            return t;
        }
        t = t + 1;
    }
}

// ---------------------------------------------------------------------------
// Pyramids
// ---------------------------------------------------------------------------

/// The area of the pyramid of size `n`: `floor((n + 1)^2 / 4)`.
pub open spec fn pyramid_area(n: int) -> int {
    (n + 1) * (n + 1) / 4
}

/// The area of the pyramid of size `n`.
pub fn get_pyramid_area(n: i32) -> (r: i32)
    requires
        fits(n + 1),
        fits((n + 1) * (n + 1)),
    ensures
        r == pyramid_area(n as int),
{
    assert((n + 1) * (n + 1) >= 0) by (nonlinear_arith);
    (n + 1) * (n + 1) / 4
}

/// `n` is the largest pyramid size whose area is at most `a`.
pub open spec fn is_pyramid_size(a: int, n: int) -> bool {
    0 <= n && pyramid_area(n) <= a < pyramid_area(n + 1)
}

/// The largest pyramid size whose area is at most `a` (`-2` when `a` is
/// negative).
pub open spec fn pyramid_size(a: int) -> int {
    if a < 0 {
        -2
    } else {
        choose|n: int| #[trigger] is_pyramid_size(a, n)
    }
}

/// The pyramid area grows by at least one with each size.
pub proof fn lemma_area_step(n: int)
    requires
        0 <= n,
    ensures
        pyramid_area(n + 1) >= pyramid_area(n) + 1,
{
    let y = (n + 1) * (n + 1);
    let z = (n + 2) * (n + 2);
    assert(z == y + 2 * n + 3) by (nonlinear_arith)
        requires
            y == (n + 1) * (n + 1),
            z == (n + 2) * (n + 2),
    ;
    if n == 0 {
        assert(pyramid_area(0) == 0) by {
            assert((0int + 1) * (0int + 1) == 1);
            assert(1int / 4 == 0);
        }
        assert(pyramid_area(1) == 1);
    } else {
        vstd::arithmetic::div_mod::lemma_div_plus_one(y, 4);
        vstd::arithmetic::div_mod::lemma_div_is_ordered(y + 4, z, 4);
    }
}

/// The pyramid area grows at least as fast as the size.
pub proof fn lemma_area_mono(m: int, n: int)
    requires
        0 <= m <= n,
    ensures
        pyramid_area(n) >= pyramid_area(m) + (n - m),
    decreases n - m,
{
    if m < n {
        lemma_area_mono(m, n - 1);
        lemma_area_step(n - 1);
    }
}

/// The pyramid size is the unique `n >= 0` with `area(n) <= a < area(n + 1)`.
proof fn lemma_pyramid_size(a: int, n: int)
    requires
        0 <= n,
        pyramid_area(n) <= a < pyramid_area(n + 1),
    ensures
        pyramid_size(a) == n,
{
    assert(pyramid_area(0) == 0);
    assert(is_pyramid_size(a, n));
    let m = choose|m: int| #[trigger] is_pyramid_size(a, m);
    if m < n {
        lemma_area_mono(m + 1, n);
    } else if n < m {
        lemma_area_mono(n + 1, m);
    }
}

/// The integer square root of `x`.
fn isqrt(x: i32) -> (r: i32)
    requires
        0 <= x,
    ensures
        0 <= r,
        r * r <= x < (r + 1) * (r + 1),
{
    let mut lo: i64 = 0;
    let mut hi: i64 = 46341;
    assert(46341 * 46341 > i32::MAX);
    while hi - lo > 1
        invariant
            0 <= lo < hi <= 46341,
            lo * lo <= x,
            x < hi * hi,
        decreases hi - lo,
    {
        let mid = lo + (hi - lo) / 2;
        assert(0 <= mid * mid <= 46341 * 46341) by (nonlinear_arith)
            requires
                0 <= mid <= 46341,
        ;
        if mid * mid <= x as i64 {
            lo = mid;
        } else {
            hi = mid;
        }
    }
    assert(hi == lo + 1);
    lo as i32
}

/// The size of the largest complete pyramid whose area is at most `a`.
pub fn get_num_completed_pyramid_size(a: i32) -> (r: i32)
    requires
        fits(4 * a + 3),
    ensures
        r == pyramid_size(a as int),
        0 <= a ==> 0 <= r && pyramid_area(r as int) <= a < pyramid_area(r + 1),
{
    if a == 1 {
        proof {
            assert(pyramid_area(1) == 1);
            assert(pyramid_area(2) == 2);
            lemma_pyramid_size(1, 1);
        }
        return 1;
    }
    let q = 4 * a + 3;
    // a negative radicand has no square root; its root is taken as zero
    let s = if q < 0 {
        0
    } else {
        isqrt(q)
    };
    let nhigh = s - 1;
    proof {
        if q >= 0 {
            assert(s * s <= 46341 * 46341) by (nonlinear_arith)
                requires
                    0 <= s,
                    s * s <= q,
                    q <= i32::MAX,
            ;
        }
    }
    assert(fits(s * s)) by {
        if q >= 0 {
            assert(0 <= s * s <= q);
        }
    }
    assert((nhigh + 1) * (nhigh + 1) == s * s);
    let area = get_pyramid_area(nhigh);
    if area <= a {
        proof {
            if a >= 0 {
                assert(s >= 1) by (nonlinear_arith)
                    requires
                        q >= 3,
                        q < (s + 1) * (s + 1),
                        s >= 0,
                ;
                let y = (s + 1) * (s + 1);
                vstd::arithmetic::div_mod::lemma_div_is_ordered(4 * a + 4, y, 4);
                vstd::arithmetic::div_mod::lemma_div_plus_one(4 * a, 4);
                assert((4 * a) / 4 == a as int);
                assert(pyramid_area(nhigh + 1) == y / 4);
                lemma_pyramid_size(a as int, nhigh as int);
            } else {
                assert(area >= 0) by (nonlinear_arith)
                    requires
                        area == (nhigh + 1) * (nhigh + 1) / 4,
                ;
            }
        }
        nhigh
    } else {
        proof {
            if a >= 0 {
                vstd::arithmetic::div_mod::lemma_div_is_ordered(s * s, 4 * a + 3, 4);
                assert((4 * a + 3) / 4 == a as int);
            }
        }
        nhigh - 1
    }
}

/// The velocities (inclusive range) with which `dx` can be reached along one
/// axis in `t` steps from velocity `v`, or `None` when `dx` cannot be reached.
pub open spec fn vrange(dx: int, v: int, t: int) -> Option<(int, int)> {
    let xr = available_xs(v, t);
    if dx < xr.0 || dx > xr.1 {
        None
    } else {
        Some((v + t - pyramid_size(xr.1 - dx), v - t + pyramid_size(dx - xr.0)))
    }
}

/// The arithmetic of `vrange` stays within `i32`.
pub open spec fn vrange_fits(dx: int, v: int, t: int) -> bool {
    let xr = available_xs(v, t);
    &&& xs_fits(v, t)
    &&& reachable_at(dx, v, t) ==> {
        &&& fits(4 * (xr.1 - dx) + 3)
        &&& fits(4 * (dx - xr.0) + 3)
        &&& fits(v + t)
        &&& fits(v - t)
        &&& fits(v + t - pyramid_size(xr.1 - dx))
        &&& fits(v - t + pyramid_size(dx - xr.0))
    }
}

/// The velocity range with which `dx` can be reached in `t` steps from `vinit`.
pub fn get_available_vrange(dx: i32, vinit: i32, t: i32) -> (r: Option<(i32, i32)>)
    requires
        vrange_fits(dx as int, vinit as int, t as int),
    ensures
        r is None <==> vrange(dx as int, vinit as int, t as int) is None,
        r matches Some(p) ==> vrange(dx as int, vinit as int, t as int) == Some(
            (p.0 as int, p.1 as int),
        ),
{
    let xr = get_oneaxis_available_xs(vinit, t);
    if dx < xr.0 || dx > xr.1 {
        return None;
    }
    let to_decrease = xr.1 - dx;
    let removed_pyramid_size = get_num_completed_pyramid_size(to_decrease);
    let slowest = vinit + t - removed_pyramid_size;
    let to_increase = dx - xr.0;
    let added_pyramid_size = get_num_completed_pyramid_size(to_increase);
    let fastest = vinit - t + added_pyramid_size;
    Some((slowest, fastest))
}

/// `u` lies in the inclusive range `rangeval`.
pub fn in_range(u: i32, rangeval: (i32, i32)) -> (r: bool)
    ensures
        r == (rangeval.0 <= u && u <= rangeval.1),
{
    rangeval.0 <= u && u <= rangeval.1
}

} // verus!
