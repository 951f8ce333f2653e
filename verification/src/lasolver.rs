//! Look-ahead search: the thrusts from a point and velocity through a middle
//! point to an end point, found by a best-first search over (position,
//! velocity, middle passed) states ordered by steps taken plus an estimate of
//! the steps left.
//!
//! The frontier is a vector whose best entry is taken out each round (least
//! estimated total first, then states that passed the middle, then the
//! greater position and velocity); the states seen are kept in a table with
//! their step counts and the entry they were reached from.
use vstd::prelude::*;

use crate::lookahead::{additional_estimate, calc_additional_estimate};
use crate::lookahead::{fallback_plan, padded, solve_fallback_checked};
use crate::spaceship::{
    axis_cost_fits, encode_thrust_into_keypad, fits, has_key, iabs, keypad_char, surrogate_cost, velocity_cost,
    velocity_cost_fits,
};
use crate::text::append_str;
use crate::spaceship::{abs_fits, axis_cost, chebyshev, iabs as sp_iabs, imax, xs, ys};
use vstd::set_lib::{lemma_int_range, lemma_len_subset, set_int_range};

verus! {

/// A search state: position, velocity, and whether the middle point has been
/// passed.
pub type SearchKey = ((i32, i32), (i32, i32), bool);

/// The position and velocity after the thrusts `a`, from position `p` with
/// velocity `v`: each thrust is added to the velocity, then the velocity to
/// the position.
pub open spec fn run(p: (int, int), v: (int, int), a: Seq<(i32, i32)>) -> ((int, int), (int, int))
    decreases a.len(),
{
    if a.len() == 0 {
        (p, v)
    } else {
        let w = (v.0 + a[0].0, v.1 + a[0].1);
        run((p.0 + w.0, p.1 + w.1), w, a.drop_first())
    }
}

/// Every thrust is one of the nine keypad thrusts.
pub open spec fn thrusts_ok(a: Seq<(i32, i32)>) -> bool {
    forall|i: int| 0 <= i < a.len() ==> -1 <= (#[trigger] a[i]).0 <= 1 && -1 <= a[i].1 <= 1
}

/// A point as a pair of integers.
pub open spec fn pt(p: (i32, i32)) -> (int, int) {
    (p.0 as int, p.1 as int)
}

/// One step with a keypad thrust leads from `prev` to `cur`; the middle flag
/// is set once the middle point is reached.
pub open spec fn step_ok(prev: SearchKey, cur: SearchKey, midpt: (i32, i32)) -> bool {
    &&& -1 <= cur.1.0 - prev.1.0 <= 1
    &&& -1 <= cur.1.1 - prev.1.1 <= 1
    &&& cur.0.0 == prev.0.0 + cur.1.0
    &&& cur.0.1 == prev.0.1 + cur.1.1
    &&& cur.2 == (prev.2 || cur.0 == midpt)
}

/// The table of seen states: the first is the start with no steps; every
/// other is one step from the entry it names, which took fewer steps; no
/// state appears twice.
pub open spec fn table_ok(t: Seq<(SearchKey, i32, usize)>, start: SearchKey, midpt: (i32, i32)) -> bool {
    &&& t.len() >= 1
    &&& t[0].0 == start
    &&& t[0].1 == 0
    &&& !start.2
    &&& start.0 != midpt
    &&& forall|i: int, j: int| 0 <= i < j < t.len() ==> (#[trigger] t[i]).0 != (#[trigger] t[j]).0
    &&& forall|i: int|
        1 <= i < t.len() ==> {
            &&& (#[trigger] t[i]).2 < t.len()
            &&& 1 <= t[i].1
            &&& t[t[i].2 as int].1 < t[i].1
            &&& step_ok(t[t[i].2 as int].0, t[i].0, midpt)
        }
}

/// Every frontier entry names the table entry of its state.
pub open spec fn frontier_ok(h: Seq<(i32, bool, (i32, i32), (i32, i32), usize)>, t: Seq<(SearchKey, i32, usize)>) -> bool {
    forall|k: int|
        0 <= k < h.len() ==> {
            &&& (#[trigger] h[k]).4 < t.len()
            &&& t[h[k].4 as int].0 == (h[k].2, h[k].3, h[k].1)
        }
}

/// Why the search gave up.
#[derive(Debug, Clone, Copy, PartialEq, Eq, Structural)]
pub enum SearchError {
    /// The frontier grew beyond a million entries and the search was not
    /// forced to go on.
    TooLarge,
    /// The frontier ran empty.
    Exhausted,
}

/// `a` comes before `b` in the frontier order: least estimated total first,
/// then passed middle, then greater position, then greater velocity.
pub open spec fn before_spec(a: (i32, bool, (i32, i32), (i32, i32), usize), b: (i32, bool, (i32, i32), (i32, i32), usize)) -> bool {
    if a.0 != b.0 {
        a.0 < b.0
    } else if a.1 != b.1 {
        a.1
    } else if a.2.0 != b.2.0 {
        a.2.0 > b.2.0
    } else if a.2.1 != b.2.1 {
        a.2.1 > b.2.1
    } else if a.3.0 != b.3.0 {
        a.3.0 > b.3.0
    } else {
        a.3.1 > b.3.1
    }
}

/// The index of the first entry in the frontier order among the first `n`
/// entries of `h` (a later entry replaces the best so far only when it
/// comes strictly before it).
pub open spec fn best_in(h: Seq<(i32, bool, (i32, i32), (i32, i32), usize)>, n: int) -> int
    decreases n,
{
    if n <= 1 {
        0
    } else {
        let b = best_in(h, n - 1);
        if before_spec(h[n - 1], h[b]) {
            n - 1
        } else {
            b
        }
    }
}

proof fn lemma_best_in_range(h: Seq<(i32, bool, (i32, i32), (i32, i32), usize)>, n: int)
    ensures
        n >= 1 ==> 0 <= best_in(h, n) < n,
    decreases n,
{
    if n > 1 {
        lemma_best_in_range(h, n - 1);
    }
}

/// The index of the first entry of `t` from `i` on whose state is `s`.
pub open spec fn key_from(t: Seq<(SearchKey, i32, usize)>, s: SearchKey, i: int) -> Option<int>
    decreases t.len() - i,
{
    if i < 0 || i >= t.len() {
        None
    } else if t[i].0 == s {
        Some(i)
    } else {
        key_from(t, s, i + 1)
    }
}

fn before(a: &(i32, bool, (i32, i32), (i32, i32), usize), b: &(i32, bool, (i32, i32), (i32, i32), usize)) -> (r: bool)
    ensures
        r == before_spec(*a, *b),
{
    if a.0 != b.0 {
        a.0 < b.0
    } else if a.1 != b.1 {
        a.1
    } else if a.2.0 != b.2.0 {
        a.2.0 > b.2.0
    } else if a.2.1 != b.2.1 {
        a.2.1 > b.2.1
    } else if a.3.0 != b.3.0 {
        a.3.0 > b.3.0
    } else {
        a.3.1 > b.3.1
    }
}

/// Takes the first entry of the frontier order out of `h`.
fn take_best(h: &mut Vec<(i32, bool, (i32, i32), (i32, i32), usize)>) -> (r: (i32, bool, (i32, i32), (i32, i32), usize))
    requires
        old(h).len() > 0,
    ensures
        old(h)@.contains(r),
        final(h).len() == old(h).len() - 1,
        forall|k: int| 0 <= k < final(h).len() ==> old(h)@.contains(#[trigger] final(h)@[k]),
        exists|b: int| 0 <= b < old(h).len() && old(h)@[b] == r && final(h)@ == old(h)@.remove(b),
        r == old(h)@[best_in(old(h)@, old(h).len() as int)],
        final(h)@ == old(h)@.remove(best_in(old(h)@, old(h).len() as int)),
{
    let mut best: usize = 0;
    let mut i: usize = 1;
    while i < h.len()
        invariant
            1 <= i <= h.len(),
            best < h.len(),
            best == best_in(h@, i as int),
        decreases h.len() - i,
    {
        if before(&h[i], &h[best]) {
            best = i;
        }
        i = i + 1;
    }
    let ghost oh = h@;
    let r = h.remove(best);
    assert(oh[best as int] == r);
    assert forall|k: int| 0 <= k < h.len() implies oh.contains(#[trigger] h@[k]) by {
        if k < best {
            assert(h@[k] == oh[k]);
        } else {
            assert(h@[k] == oh[k + 1]);
        }
    }
    assert(h@ == oh.remove(best as int));
    r
}

/// The index of the state `s` in the table, if it is there.
fn find(t: &Vec<(SearchKey, i32, usize)>, s: SearchKey) -> (r: Option<usize>)
    ensures
        match r {
            Some(i) => i < t.len() && t@[i as int].0 == s,
            None => forall|i: int| 0 <= i < t.len() ==> (#[trigger] t@[i]).0 != s,
        },
        match r {
            Some(i) => key_from(t@, s, 0) == Some(i as int),
            None => key_from(t@, s, 0) is None,
        },
{
    let mut i: usize = 0;
    while i < t.len()
        invariant
            i <= t.len(),
            forall|j: int| 0 <= j < i ==> (#[trigger] t@[j]).0 != s,
            key_from(t@, s, 0) == key_from(t@, s, i as int),
        decreases t.len() - i,
    {
        let e = t[i].0;
        if e.0.0 == s.0.0 && e.0.1 == s.0.1 && e.1.0 == s.1.0 && e.1.1 == s.1.1 && e.2 == s.2 {
            return Some(i);
        }
        i = i + 1;
    }
    None
}

/// The estimate of `calc_additional_estimate` in `i64`, when its arithmetic
/// stays within `i32`.
fn estimate(curpt: (i32, i32), curv: (i32, i32), passed: bool, midpt: (i32, i32), endpt: (i32, i32)) -> (r: Option<i32>)
    ensures
        r matches Some(e) ==> e == additional_estimate(curpt, curv, passed, midpt, endpt),
        r is Some <==> la_est_ok(curpt, curv, passed, midpt, endpt),
{
    if passed {
        if cost_fits(curpt, curv, endpt) {
            Some(calc_additional_estimate(curpt, curv, passed, midpt, endpt))
        } else {
            None
        }
    } else {
        if cost_fits(curpt, curv, midpt) && cost_fits(midpt, curv, endpt) {
            if sum_fits(curpt, curv, midpt, endpt) {
                Some(calc_additional_estimate(curpt, curv, passed, midpt, endpt))
            } else {
                None
            }
        } else {
            None
        }
    }
}

/// Whether `axis_cost_fits(d, v)` holds.
fn axis_fits(d: i64, v: i32) -> (r: bool)
    requires
        -0x1_0000_0000 <= d <= 0x1_0000_0000,
    ensures
        r == axis_cost_fits(d as int, v as int),
{
    if d < -(i32::MAX as i64) || d > i32::MAX as i64 || v == i32::MIN {
        return false;
    }
    let sd: i64 = if d > 0 { 1 } else if d < 0 { -1 } else { 0 };
    let sv: i64 = if v > 0 { 1 } else if v < 0 { -1 } else { 0 };
    let gap = if sd - sv < 0 { sv - sd } else { sd - sv };
    let ad: i64 = if d < 0 { -d } else { d };
    let vi = v as i64;
    assert(0 <= vi * vi <= 0x4000_0000_0000_0000) by (nonlinear_arith)
        requires
            -0x8000_0000 <= vi <= 0x8000_0000,
    ;
    let vv: i64 = vi * vi;
    if gap > 1 {
        ad + vv + 1 <= i32::MAX as i64
    } else {
        true
    }
}

/// Whether `velocity_cost_fits(curpt, curv, goal)` holds.
fn cost_fits(curpt: (i32, i32), curv: (i32, i32), goal: (i32, i32)) -> (r: bool)
    ensures
        r == velocity_cost_fits(curpt, curv, goal),
{
    axis_fits(goal.0 as i64 - curpt.0 as i64, curv.0) && axis_fits(goal.1 as i64 - curpt.1 as i64, curv.1)
}

/// Whether the sum of the two estimates fits in `i32`.
fn sum_fits(curpt: (i32, i32), curv: (i32, i32), midpt: (i32, i32), endpt: (i32, i32)) -> (r: bool)
    requires
        velocity_cost_fits(curpt, curv, midpt),
        velocity_cost_fits(midpt, curv, endpt),
    ensures
        r == fits(velocity_cost(curpt, curv, midpt) + velocity_cost(midpt, curv, endpt)),
{
    let a = crate::spaceship::surrogate_cost_with_velocity(curpt, curv, midpt);
    let b = crate::spaceship::surrogate_cost_with_velocity(midpt, curv, endpt);
    let s = a as i64 + b as i64;
    i32::MIN as i64 <= s && s <= i32::MAX as i64
}

/// The estimate of `additional_estimate` is computed within `i32`.
pub open spec fn la_est_ok(p: (i32, i32), v: (i32, i32), passed: bool, midpt: (i32, i32), endpt: (i32, i32)) -> bool {
    if passed {
        velocity_cost_fits(p, v, endpt)
    } else {
        velocity_cost_fits(p, v, midpt) && velocity_cost_fits(midpt, v, endpt) && fits(
            velocity_cost(p, v, midpt) + velocity_cost(midpt, v, endpt),
        )
    }
}

/// The state reached from `st` by the thrust `(ax, ay)`.
pub open spec fn la_succ(st: SearchKey, ax: int, ay: int, midpt: (i32, i32)) -> SearchKey {
    let nv = ((st.1.0 + ax) as i32, (st.1.1 + ay) as i32);
    let np = ((st.0.0 + nv.0) as i32, (st.0.1 + nv.1) as i32);
    (np, nv, st.2 || np == midpt)
}

/// The search tries the thrust `(ax, ay)` from `st` after `score` steps: a
/// keypad thrust whose velocity, position and estimated total stay within
/// `i32`, with the new step count below `i32::MAX`.
pub open spec fn la_move_ok(st: SearchKey, score: int, ax: int, ay: int, midpt: (i32, i32), endpt: (i32, i32)) -> bool {
    let vx = st.1.0 + ax;
    let vy = st.1.1 + ay;
    let px = st.0.0 + vx;
    let py = st.0.1 + vy;
    let nv = (vx as i32, vy as i32);
    let np = (px as i32, py as i32);
    &&& -1 <= ax <= 1
    &&& -1 <= ay <= 1
    &&& fits(vx) && fits(vy) && fits(px) && fits(py)
    &&& score + 1 < i32::MAX
    &&& la_est_ok(np, nv, st.2, midpt, endpt)
    &&& fits(score + 1 + additional_estimate(np, nv, st.2, midpt, endpt))
}

/// A state that has passed the middle point and stands at the end point.
pub open spec fn la_goal(st: SearchKey, endpt: (i32, i32)) -> bool {
    st.2 && st.0 == endpt
}

/// The search, run from `st` after `score` steps with the thrusts `a`,
/// meets a state that has passed the middle point and stands at the end
/// point, trying each thrust on the way.
pub open spec fn la_route_ok(st: SearchKey, score: int, a: Seq<(i32, i32)>, midpt: (i32, i32), endpt: (i32, i32)) -> bool
    decreases a.len(),
{
    la_goal(st, endpt) || (a.len() > 0 && la_move_ok(st, score, a[0].0 as int, a[0].1 as int, midpt, endpt)
        && la_route_ok(la_succ(st, a[0].0 as int, a[0].1 as int, midpt), score + 1, a.drop_first(), midpt, endpt))
}

proof fn lemma_axis_cost_nonneg(d: int, v: int)
    ensures
        axis_cost(d, v) >= 0,
{
    assert(v * v >= 0) by (nonlinear_arith);
    let m = if 1 >= sp_iabs(v) { 1 } else { sp_iabs(v) };
    assert(sp_iabs(d) / m >= 0) by (nonlinear_arith)
        requires
            sp_iabs(d) >= 0,
            m >= 1,
    ;
}

proof fn lemma_estimate_nonneg(p: (i32, i32), v: (i32, i32), passed: bool, midpt: (i32, i32), endpt: (i32, i32))
    ensures
        additional_estimate(p, v, passed, midpt, endpt) >= 0,
{
    lemma_axis_cost_nonneg(endpt.0 - p.0, v.0 as int);
    lemma_axis_cost_nonneg(endpt.1 - p.1, v.1 as int);
    lemma_axis_cost_nonneg(midpt.0 - p.0, v.0 as int);
    lemma_axis_cost_nonneg(midpt.1 - p.1, v.1 as int);
    lemma_axis_cost_nonneg(endpt.0 - midpt.0, v.0 as int);
    lemma_axis_cost_nonneg(endpt.1 - midpt.1, v.1 as int);
}

/// The sum of the step counts in the table.
pub open spec fn ssum(t: Seq<(SearchKey, i32, usize)>) -> int
    decreases t.len(),
{
    if t.len() == 0 {
        0
    } else {
        ssum(t.drop_last()) + t.last().1
    }
}

proof fn lemma_ssum_push(t: Seq<(SearchKey, i32, usize)>, e: (SearchKey, i32, usize))
    ensures
        ssum(t.push(e)) == ssum(t) + e.1,
{
    assert(t.push(e).drop_last() =~= t);
}

proof fn lemma_ssum_update(t: Seq<(SearchKey, i32, usize)>, i: int, e: (SearchKey, i32, usize))
    requires
        0 <= i < t.len(),
    ensures
        ssum(t.update(i, e)) == ssum(t) - t[i].1 + e.1,
    decreases t.len(),
{
    if i == t.len() - 1 {
        assert(t.update(i, e).drop_last() =~= t.drop_last());
    } else {
        assert(t.update(i, e).drop_last() =~= t.drop_last().update(i, e));
        lemma_ssum_update(t.drop_last(), i, e);
    }
}

proof fn lemma_ssum_nonneg(t: Seq<(SearchKey, i32, usize)>)
    requires
        forall|i: int| 0 <= i < t.len() ==> (#[trigger] t[i]).1 >= 0,
    ensures
        ssum(t) >= 0,
    decreases t.len(),
{
    if t.len() > 0 {
        lemma_ssum_nonneg(t.drop_last());
    }
}

/// The number of search states: two `i32` coordinates each for position and
/// velocity, and the middle flag.
pub open spec fn la_states() -> int {
    0x1_0000_0000int * 0x1_0000_0000 * 0x1_0000_0000 * 0x1_0000_0000 * 2
}

/// A measure that every round of the search lowers.
pub open spec fn la_phi(h: Seq<(i32, bool, (i32, i32), (i32, i32), usize)>, t: Seq<(SearchKey, i32, usize)>) -> int {
    h.len() + 10 * ssum(t) + 10 * 0x8000_0000 * (la_states() - t.len())
}

/// The position of a state among all search states.
pub open spec fn la_index(k: SearchKey) -> int {
    ((((k.0.0 + 0x8000_0000) * 0x1_0000_0000 + (k.0.1 + 0x8000_0000)) * 0x1_0000_0000 + (k.1.0 + 0x8000_0000))
        * 0x1_0000_0000 + (k.1.1 + 0x8000_0000)) * 2 + if k.2 {
        1int
    } else {
        0int
    }
}

proof fn lemma_digit(x1: int, d1: int, x2: int, d2: int, b: int)
    requires
        0 <= d1 < b,
        0 <= d2 < b,
        x1 * b + d1 == x2 * b + d2,
    ensures
        x1 == x2,
        d1 == d2,
{
    assert(x1 == x2) by (nonlinear_arith)
        requires
            0 <= d1 < b,
            0 <= d2 < b,
            x1 * b + d1 == x2 * b + d2,
    ;
}

proof fn lemma_digit_range(x: int, m: int, d: int, b: int)
    requires
        0 <= x < m,
        0 <= d < b,
    ensures
        0 <= x * b + d < m * b,
{
    assert(0 <= x * b + d < m * b) by (nonlinear_arith)
        requires
            0 <= x < m,
            0 <= d < b,
    ;
}

proof fn lemma_la_index(k: SearchKey, l: SearchKey)
    ensures
        0 <= la_index(k) < la_states(),
        la_index(k) == la_index(l) ==> k == l,
{
    let w = 0x1_0000_0000int;
    let a1 = k.0.0 + 0x8000_0000;
    let a2 = a1 * w + (k.0.1 + 0x8000_0000);
    let a3 = a2 * w + (k.1.0 + 0x8000_0000);
    let a4 = a3 * w + (k.1.1 + 0x8000_0000);
    let bk = if k.2 { 1int } else { 0int };
    lemma_digit_range(a1, w, k.0.1 + 0x8000_0000, w);
    lemma_digit_range(a2, w * w, k.1.0 + 0x8000_0000, w);
    lemma_digit_range(a3, w * w * w, k.1.1 + 0x8000_0000, w);
    lemma_digit_range(a4, w * w * w * w, bk, 2);
    if la_index(k) == la_index(l) {
        let b1 = l.0.0 + 0x8000_0000;
        let b2 = b1 * w + (l.0.1 + 0x8000_0000);
        let b3 = b2 * w + (l.1.0 + 0x8000_0000);
        let b4 = b3 * w + (l.1.1 + 0x8000_0000);
        let bl = if l.2 { 1int } else { 0int };
        lemma_digit(a4, bk, b4, bl, 2);
        lemma_digit(a3, k.1.1 + 0x8000_0000, b3, l.1.1 + 0x8000_0000, w);
        lemma_digit(a2, k.1.0 + 0x8000_0000, b2, l.1.0 + 0x8000_0000, w);
        lemma_digit(a1, k.0.1 + 0x8000_0000, b1, l.0.1 + 0x8000_0000, w);
    }
}

/// The table holds no more states than there are.
proof fn lemma_la_table_size(t: Seq<(SearchKey, i32, usize)>, start: SearchKey, midpt: (i32, i32))
    requires
        table_ok(t, start, midpt),
    ensures
        t.len() <= la_states(),
{
    let s = Seq::new(t.len(), |i: int| la_index(t[i].0));
    assert forall|i: int, j: int| 0 <= i < s.len() && 0 <= j < s.len() && i != j implies s[i] != s[j] by {
        lemma_la_index(t[i].0, t[j].0);
        if i < j {
            assert(t[i].0 != t[j].0);
        } else {
            assert(t[j].0 != t[i].0);
        }
    }
    assert(s.no_duplicates());
    s.unique_seq_to_set();
    lemma_int_range(0, la_states());
    assert forall|x: int| s.to_set().contains(x) implies set_int_range(0, la_states()).contains(x) by {
        assert(s.contains(x));
        let i = choose|i: int| 0 <= i < s.len() && s[i] == x;
        lemma_la_index(t[i].0, t[i].0);
    }
    lemma_len_subset(s.to_set(), set_int_range(0, la_states()));
}

/// The table `t` keeps the states of `t0` with no more steps.
pub open spec fn la_kept(t0: Seq<(SearchKey, i32, usize)>, t: Seq<(SearchKey, i32, usize)>) -> bool {
    &&& t.len() >= t0.len()
    &&& forall|j: int| 0 <= j < t0.len() ==> (#[trigger] t[j]).0 == t0[j].0 && t[j].1 <= t0[j].1
}

/// The frontier `h` starts with `h0`.
pub open spec fn la_extends(h0: Seq<(i32, bool, (i32, i32), (i32, i32), usize)>, h: Seq<(i32, bool, (i32, i32), (i32, i32), usize)>) -> bool {
    &&& h.len() >= h0.len()
    &&& forall|k: int| 0 <= k < h0.len() ==> #[trigger] h[k] == h0[k]
}

/// The frontier names table entry `j`.
pub open spec fn la_queued(h: Seq<(i32, bool, (i32, i32), (i32, i32), usize)>, j: int) -> bool {
    exists|k: int| 0 <= k < h.len() && (#[trigger] h[k]).4 == j
}

/// Every entry of `t` that is new or has fewer steps than in `t0` is in the
/// frontier.
pub open spec fn la_changes_queued(h: Seq<(i32, bool, (i32, i32), (i32, i32), usize)>, t: Seq<(SearchKey, i32, usize)>, t0: Seq<(SearchKey, i32, usize)>) -> bool {
    forall|j: int| 0 <= j < t.len() && (j >= t0.len() || t[j].1 < t0[j].1) ==> #[trigger] la_queued(h, j)
}

/// A state reached in the middle point has the middle flag set.
proof fn lemma_flag(t: Seq<(SearchKey, i32, usize)>, start: SearchKey, midpt: (i32, i32), i: int)
    requires
        table_ok(t, start, midpt),
        0 <= i < t.len(),
        t[i].0.0 == midpt,
    ensures
        t[i].0.2,
{
    if i >= 1 {
        assert(step_ok(t[t[i].2 as int].0, t[i].0, midpt));
    }
}

/// Records `key`, reached from entry `idx` in `score` steps: in place of
/// its entry `found` when it is there, else at the end.
#[verifier::rlimit(100)]
#[verifier::spinoff_prover]
fn la_record(
    table: &mut Vec<(SearchKey, i32, usize)>,
    key: SearchKey,
    new_true: i32,
    idx: usize,
    found: Option<usize>,
    midpt: (i32, i32),
    Ghost(start): Ghost<SearchKey>,
) -> (at: usize)
    requires
        table_ok(old(table)@, start, midpt),
        idx < old(table).len(),
        step_ok(old(table)@[idx as int].0, key, midpt),
        old(table)@[idx as int].1 < new_true,
        match found {
            Some(i) => i < old(table).len() && old(table)@[i as int].0 == key && old(table)@[i as int].1 > new_true,
            None => forall|i: int| 0 <= i < old(table).len() ==> (#[trigger] old(table)@[i]).0 != key,
        },
    ensures
        table_ok(final(table)@, start, midpt),
        at < final(table).len(),
        at != idx,
        final(table)@[at as int] == (key, new_true, idx),
        forall|j: int| 0 <= j < final(table).len() && j != at ==> j < old(table).len() && #[trigger] final(table)@[j] == old(table)@[j],
        found matches Some(i) ==> at == i,
        found is Some ==> at < old(table).len() && final(table).len() == old(table).len() && ssum(final(table)@) == ssum(old(table)@) - old(table)@[at as int].1 + new_true,
        found is None ==> at == old(table).len() && final(table).len() == old(table).len() + 1 && ssum(final(table)@) == ssum(old(table)@) + new_true,
{
    let ghost t0 = table@;
    let ghost st = t0[idx as int].0;
    proof {
        match found {
            Some(i) => { lemma_ssum_update(t0, i as int, (key, new_true, idx)); },
            None => { lemma_ssum_push(t0, (key, new_true, idx)); },
        }
    }
    let at = match found {
        Some(i) => {
            assert(i != 0);
            table.set(i, (key, new_true, idx));
            assert forall|j: int| 1 <= j < table@.len() implies {
                &&& (#[trigger] table@[j]).2 < table@.len()
                &&& 1 <= table@[j].1
                &&& table@[table@[j].2 as int].1 < table@[j].1
                &&& step_ok(table@[table@[j].2 as int].0, table@[j].0, midpt)
            } by {
                if j != i {
                    assert(table@[j] == t0[j]);
                    assert(t0[j].2 < t0.len());
                    assert(step_ok(t0[t0[j].2 as int].0, t0[j].0, midpt));
                    if t0[j].2 == i {
                        assert(table@[table@[j].2 as int].0 == t0[i as int].0);
                    } else {
                        assert(table@[table@[j].2 as int] == t0[t0[j].2 as int]);
                    }
                } else {
                    assert(idx != i);
                    assert(table@[idx as int] == t0[idx as int]);
                }
            }
            assert forall|a: int, b: int| 0 <= a < b < table@.len() implies (#[trigger] table@[a]).0 != (
            #[trigger] table@[b]).0 by {
                assert(t0[a].0 != t0[b].0);
            }
            i
        },
        None => {
            table.push((key, new_true, idx));
            assert forall|j: int| 1 <= j < table@.len() implies {
                &&& (#[trigger] table@[j]).2 < table@.len()
                &&& 1 <= table@[j].1
                &&& table@[table@[j].2 as int].1 < table@[j].1
                &&& step_ok(table@[table@[j].2 as int].0, table@[j].0, midpt)
            } by {
                if j < t0.len() {
                    assert(table@[j] == t0[j]);
                    assert(t0[j].2 < t0.len());
                    assert(table@[table@[j].2 as int] == t0[t0[j].2 as int]);
                } else {
                    assert(table@[idx as int] == t0[idx as int]);
                }
            }
            assert forall|a: int, b: int| 0 <= a < b < table@.len() implies (#[trigger] table@[a]).0 != (
            #[trigger] table@[b]).0 by {
                if b < t0.len() {
                    assert(t0[a].0 != t0[b].0);
                } else {
                    assert(t0[a].0 != key);
                }
            }
            table.len() - 1
        },
    };
    at
}

/// A frontier entry: estimated total, middle passed, position, velocity,
/// and the table entry of the state.
pub type HeapEntry = (i32, bool, (i32, i32), (i32, i32), usize);

/// A table entry: the state, its step count, and the entry it was reached
/// from.
pub type TableEntry = (SearchKey, i32, usize);

/// The table and frontier after trying the thrust `(ax, ay)` from table
/// entry `idx` (see `try_move`): unchanged when the velocity or position
/// would leave `i32`, the step count is at `i32::MAX`, the state reached is
/// already in the table with no more steps, or its estimate or estimated
/// total would leave `i32`; else the state is recorded with its steps and
/// origin (in place of its entry when it has one, else at the end) and put
/// in the frontier.
#[verifier::opaque]
pub open spec fn la_try(
    t: Seq<TableEntry>,
    h: Seq<HeapEntry>,
    idx: int,
    ax: int,
    ay: int,
    midpt: (i32, i32),
    endpt: (i32, i32),
) -> (Seq<TableEntry>, Seq<HeapEntry>) {
    let st = t[idx].0;
    let base = t[idx].1 as int;
    let vx = st.1.0 + ax;
    let vy = st.1.1 + ay;
    let px = st.0.0 + vx;
    let py = st.0.1 + vy;
    if !(fits(vx) && fits(vy) && fits(px) && fits(py)) || base == i32::MAX {
        (t, h)
    } else {
        let key = la_succ(st, ax, ay, midpt);
        let new_true = base + 1;
        let found = key_from(t, key, 0);
        let saved: int = match found {
            Some(i) => t[i].1 as int,
            None => i32::MAX as int,
        };
        let est = additional_estimate(key.0, key.1, st.2, midpt, endpt);
        if new_true >= saved || !la_est_ok(key.0, key.1, st.2, midpt, endpt) || !fits(new_true + est) {
            (t, h)
        } else {
            let e = (key, new_true as i32, idx as usize);
            let comb = (new_true + est) as i32;
            match found {
                Some(i) => (t.update(i, e), h.push((comb, key.2, key.0, key.1, i as usize))),
                None => (t.push(e), h.push((comb, key.2, key.0, key.1, t.len() as usize))),
            }
        }
    }
}

/// Tries the thrust `(ax, ay)` from the state of table entry `idx`: when the
/// reached state is new or now reached in fewer steps, the table records it
/// and the frontier gets it. Moves whose arithmetic would leave `i32` are not
/// tried (see `la_move_ok`).
#[verifier::rlimit(100)]
#[verifier::spinoff_prover]
fn try_move(
    table: &mut Vec<(SearchKey, i32, usize)>,
    heap: &mut Vec<(i32, bool, (i32, i32), (i32, i32), usize)>,
    idx: usize,
    ax: i32,
    ay: i32,
    midpt: (i32, i32),
    endpt: (i32, i32),
    Ghost(start): Ghost<SearchKey>,
)
    requires
        table_ok(old(table)@, start, midpt),
        frontier_ok(old(heap)@, old(table)@),
        idx < old(table).len(),
        -1 <= ax <= 1,
        -1 <= ay <= 1,
    ensures
        table_ok(final(table)@, start, midpt),
        frontier_ok(final(heap)@, final(table)@),
        final(table)@[idx as int] == old(table)@[idx as int],
        la_kept(old(table)@, final(table)@),
        la_extends(old(heap)@, final(heap)@),
        la_changes_queued(final(heap)@, final(table)@, old(table)@),
        la_phi(final(heap)@, final(table)@) <= la_phi(old(heap)@, old(table)@),
        la_move_ok(old(table)@[idx as int].0, old(table)@[idx as int].1 as int, ax as int, ay as int, midpt, endpt)
            ==> exists|j: int|
            0 <= j < final(table).len() && (#[trigger] final(table)@[j]).0 == la_succ(old(table)@[idx as int].0, ax as int, ay as int, midpt)
                && final(table)@[j].1 <= old(table)@[idx as int].1 + 1,
        (final(table)@, final(heap)@) == la_try(old(table)@, old(heap)@, idx as int, ax as int, ay as int, midpt, endpt),
{
    proof {
        reveal(la_try);
    }
    let st = table[idx].0;
    let base = table[idx].1;
    let position = st.0;
    let velocity = st.1;
    let passed = st.2;
    let vx = velocity.0 as i64 + ax as i64;
    let vy = velocity.1 as i64 + ay as i64;
    if vx < i32::MIN as i64 || vx > i32::MAX as i64 || vy < i32::MIN as i64 || vy > i32::MAX as i64 {
        return;
    }
    let px = position.0 as i64 + vx;
    let py = position.1 as i64 + vy;
    if px < i32::MIN as i64 || px > i32::MAX as i64 || py < i32::MIN as i64 || py > i32::MAX as i64 {
        return;
    }
    if base == i32::MAX {
        return;
    }
    let newv = (vx as i32, vy as i32);
    let newx = (px as i32, py as i32);
    let new_passed = passed || (newx.0 == midpt.0 && newx.1 == midpt.1);
    let key: SearchKey = (newx, newv, new_passed);
    assert(key == la_succ(st, ax as int, ay as int, midpt));
    let new_true = base + 1;
    let found = find(table, key);
    let saved = match found {
        Some(i) => table[i].1,
        None => i32::MAX,
    };
    if new_true >= saved {
        return;
    }
    let est = match estimate(newx, newv, passed, midpt, endpt) {
        Some(e) => e,
        None => {
            return;
        },
    };
    if (new_true as i64) + (est as i64) > i32::MAX as i64 || (new_true as i64) + (est as i64) < i32::MIN as i64 {
        return;
    }
    let combined = new_true + est;
    assert(step_ok(st, key, midpt));
    let ghost t0 = table@;
    let ghost h0 = heap@;
    la_commit(table, heap, idx, key, new_true, combined, found, midpt, Ghost(start));
    proof {
        let at = match found {
            Some(i) => i as int,
            None => t0.len() as int,
        };
        assert(table@[at].0 == key && table@[at].1 == new_true);
    }
}

/// Records `key`, reached from entry `idx` in `new_true` steps, in the table
/// (in place of its entry `found`, or at the end) and puts it in the
/// frontier with the estimated total `combined`.
#[verifier::rlimit(100)]
#[verifier::spinoff_prover]
fn la_commit(
    table: &mut Vec<(SearchKey, i32, usize)>,
    heap: &mut Vec<(i32, bool, (i32, i32), (i32, i32), usize)>,
    idx: usize,
    key: SearchKey,
    new_true: i32,
    combined: i32,
    found: Option<usize>,
    midpt: (i32, i32),
    Ghost(start): Ghost<SearchKey>,
)
    requires
        table_ok(old(table)@, start, midpt),
        frontier_ok(old(heap)@, old(table)@),
        idx < old(table).len(),
        step_ok(old(table)@[idx as int].0, key, midpt),
        old(table)@[idx as int].1 < new_true,
        match found {
            Some(i) => i < old(table).len() && old(table)@[i as int].0 == key && old(table)@[i as int].1 > new_true,
            None => forall|i: int| 0 <= i < old(table).len() ==> (#[trigger] old(table)@[i]).0 != key,
        },
    ensures
        table_ok(final(table)@, start, midpt),
        frontier_ok(final(heap)@, final(table)@),
        final(table)@[idx as int] == old(table)@[idx as int],
        la_kept(old(table)@, final(table)@),
        la_extends(old(heap)@, final(heap)@),
        la_changes_queued(final(heap)@, final(table)@, old(table)@),
        la_phi(final(heap)@, final(table)@) <= la_phi(old(heap)@, old(table)@),
        match found {
            Some(i) => final(table)@ == old(table)@.update(i as int, (key, new_true, idx)) && final(heap)@ == old(
                heap,
            )@.push((combined, key.2, key.0, key.1, i)),
            None => final(table)@ == old(table)@.push((key, new_true, idx)) && final(heap)@ == old(heap)@.push(
                (combined, key.2, key.0, key.1, old(table).len()),
            ),
        },
{
    let ghost t0 = table@;
    proof {
        lemma_la_table_size(t0, start, midpt);
    }
    let at = la_record(table, key, new_true, idx, found, midpt, Ghost(start));
    let ghost h0 = heap@;
    heap.push((combined, key.2, key.0, key.1, at));
    proof {
        assert(heap@.len() == h0.len() + 1);
        if found is Some {
            assert(table@.len() == t0.len() && ssum(table@) == ssum(t0) - t0[at as int].1 + new_true);
            assert(la_phi(heap@, table@) == la_phi(h0, t0) + 1 + 10 * (new_true - t0[at as int].1));
        } else {
            assert(table@.len() == t0.len() + 1 && ssum(table@) == ssum(t0) + new_true);
            assert(la_phi(heap@, table@) == la_phi(h0, t0) + 1 + 10 * new_true - 10 * 0x8000_0000);
        }
    }
    assert forall|k: int| 0 <= k < heap@.len() implies {
        &&& (#[trigger] heap@[k]).4 < table@.len()
        &&& table@[heap@[k].4 as int].0 == (heap@[k].2, heap@[k].3, heap@[k].1)
    } by {
        if k < h0.len() {
            assert(heap@[k] == h0[k]);
            assert(h0[k].4 < t0.len());
            assert(h0[k].4 as int != at as int ==> table@[h0[k].4 as int] == t0[h0[k].4 as int]);
        }
    }
    proof {
        let last = heap@.len() - 1;
        assert(heap@[last] == (combined, key.2, key.0, key.1, at));
        assert forall|j: int|
            0 <= j < table@.len() && (j >= t0.len() || table@[j].1 < t0[j].1) implies #[trigger] la_queued(heap@, j) by {
            if j != at {
                assert(table@[j] == t0[j]);
            }
            assert(heap@[last].4 == j);
        }
        assert forall|j: int| 0 <= j < t0.len() implies (#[trigger] table@[j]).0 == t0[j].0 && table@[j].1 <= t0[j].1 by {
            if j != at {
                assert(table@[j] == t0[j]);
            }
        }
        assert forall|k: int| 0 <= k < h0.len() implies #[trigger] heap@[k] == h0[k] by {}
        assert(table@[at as int].0 == key);
        let e = (key, new_true, idx);
        match found {
            Some(i) => {
                assert(table@ =~= t0.update(i as int, e));
            },
            None => {
                assert(table@ =~= t0.push(e));
            },
        }
        assert(heap@ =~= h0.push((combined, key.2, key.0, key.1, at)));
    }
}


/// From table entry `i` every thrust the search tries leads to a state in
/// the table with at most one more step.
pub open spec fn la_expanded(t: Seq<(SearchKey, i32, usize)>, i: int, midpt: (i32, i32), endpt: (i32, i32)) -> bool {
    forall|ax: int, ay: int|
        #![trigger la_move_ok(t[i].0, t[i].1 as int, ax, ay, midpt, endpt)]
        la_move_ok(t[i].0, t[i].1 as int, ax, ay, midpt, endpt) ==> exists|j: int|
            0 <= j < t.len() && (#[trigger] t[j]).0 == la_succ(t[i].0, ax, ay, midpt) && t[j].1 <= t[i].1 + 1
}

/// The thrusts before `(ax, ay)` from `st` after `score` steps have led
/// into the table with at most one more step.
pub open spec fn la_tried_before(t: Seq<(SearchKey, i32, usize)>, st: SearchKey, score: int, ax: int, ay: int, midpt: (i32, i32), endpt: (i32, i32)) -> bool {
    forall|bx: int, by: int|
        #![trigger la_move_ok(st, score, bx, by, midpt, endpt)]
        (bx < ax || (bx == ax && by < ay)) && la_move_ok(st, score, bx, by, midpt, endpt) ==> exists|j: int|
            0 <= j < t.len() && (#[trigger] t[j]).0 == la_succ(st, bx, by, midpt) && t[j].1 <= score + 1
}

/// Every table entry is in the frontier or has been expanded.
pub open spec fn la_settled(h: Seq<(i32, bool, (i32, i32), (i32, i32), usize)>, t: Seq<(SearchKey, i32, usize)>, midpt: (i32, i32), endpt: (i32, i32)) -> bool {
    forall|i: int| 0 <= i < t.len() ==> #[trigger] la_queued(h, i) || la_expanded(t, i, midpt, endpt)
}

/// Every table entry at the goal is in the frontier.
pub open spec fn la_goals(h: Seq<(i32, bool, (i32, i32), (i32, i32), usize)>, t: Seq<(SearchKey, i32, usize)>, endpt: (i32, i32)) -> bool {
    forall|i: int| 0 <= i < t.len() && la_goal((#[trigger] t[i]).0, endpt) ==> la_queued(h, i)
}

proof fn lemma_la_try_step(
    t0: Seq<(SearchKey, i32, usize)>,
    h1: Seq<(i32, bool, (i32, i32), (i32, i32), usize)>,
    ta: Seq<(SearchKey, i32, usize)>,
    ha: Seq<(i32, bool, (i32, i32), (i32, i32), usize)>,
    tb: Seq<(SearchKey, i32, usize)>,
    hb: Seq<(i32, bool, (i32, i32), (i32, i32), usize)>,
    st: SearchKey,
    score: int,
    ax: int,
    ay: int,
    midpt: (i32, i32),
    endpt: (i32, i32),
)
    requires
        la_kept(t0, ta),
        la_extends(h1, ha),
        la_changes_queued(ha, ta, t0),
        la_tried_before(ta, st, score, ax, ay, midpt, endpt),
        la_kept(ta, tb),
        la_extends(ha, hb),
        la_changes_queued(hb, tb, ta),
        la_move_ok(st, score, ax, ay, midpt, endpt) ==> exists|j: int|
            0 <= j < tb.len() && (#[trigger] tb[j]).0 == la_succ(st, ax, ay, midpt) && tb[j].1 <= score + 1,
    ensures
        la_kept(t0, tb),
        la_extends(h1, hb),
        la_changes_queued(hb, tb, t0),
        la_tried_before(tb, st, score, ax, ay + 1, midpt, endpt),
{
    assert forall|j: int| 0 <= j < tb.len() && (j >= t0.len() || tb[j].1 < t0[j].1) implies #[trigger] la_queued(hb, j) by {
        if j < ta.len() && tb[j].1 == ta[j].1 {
            assert(la_queued(ha, j));
            let k = choose|k: int| 0 <= k < ha.len() && (#[trigger] ha[k]).4 == j;
            assert(hb[k] == ha[k]);
        } else {
            assert(la_queued(hb, j));
        }
    }
    assert forall|bx: int, by: int| #![trigger la_move_ok(st, score, bx, by, midpt, endpt)]
        (bx < ax || (bx == ax && by < ay + 1)) && la_move_ok(st, score, bx, by, midpt, endpt) implies exists|j: int|
        0 <= j < tb.len() && (#[trigger] tb[j]).0 == la_succ(st, bx, by, midpt) && tb[j].1 <= score + 1 by {
        if bx == ax && by == ay {
        } else {
            let j = choose|j: int| 0 <= j < ta.len() && (#[trigger] ta[j]).0 == la_succ(st, bx, by, midpt) && ta[j].1 <= score + 1;
            assert(tb[j].0 == ta[j].0);
        }
    }
}

proof fn lemma_la_next_row(t: Seq<(SearchKey, i32, usize)>, st: SearchKey, score: int, ax: int, midpt: (i32, i32), endpt: (i32, i32))
    requires
        la_tried_before(t, st, score, ax, 2, midpt, endpt),
    ensures
        la_tried_before(t, st, score, ax + 1, -1, midpt, endpt),
{
    assert forall|bx: int, by: int| #![trigger la_move_ok(st, score, bx, by, midpt, endpt)]
        (bx < ax + 1 || (bx == ax + 1 && by < -1)) && la_move_ok(st, score, bx, by, midpt, endpt) implies exists|j: int|
        0 <= j < t.len() && (#[trigger] t[j]).0 == la_succ(st, bx, by, midpt) && t[j].1 <= score + 1 by {
        assert(bx < ax || (bx == ax && by < 2));
    }
}

proof fn lemma_la_tried_all(t: Seq<(SearchKey, i32, usize)>, i: int, midpt: (i32, i32), endpt: (i32, i32))
    requires
        0 <= i < t.len(),
        la_tried_before(t, t[i].0, t[i].1 as int, 2, -1, midpt, endpt),
    ensures
        la_expanded(t, i, midpt, endpt),
{
    assert forall|ax: int, ay: int| #![trigger la_move_ok(t[i].0, t[i].1 as int, ax, ay, midpt, endpt)]
        la_move_ok(t[i].0, t[i].1 as int, ax, ay, midpt, endpt) implies exists|j: int|
        0 <= j < t.len() && (#[trigger] t[j]).0 == la_succ(t[i].0, ax, ay, midpt) && t[j].1 <= t[i].1 + 1 by {
        assert(ax < 2);
    }
}

/// The table and frontier after trying the first `k` of the nine thrusts
/// from table entry `idx`, in the order `(-1, -1)`, `(-1, 0)`, ...,
/// `(1, 1)` (see `la_try`).
pub open spec fn la_expand_spec(
    t: Seq<TableEntry>,
    h: Seq<HeapEntry>,
    idx: int,
    k: nat,
    midpt: (i32, i32),
    endpt: (i32, i32),
) -> (Seq<TableEntry>, Seq<HeapEntry>)
    decreases k,
{
    if k == 0 {
        (t, h)
    } else {
        let prev = la_expand_spec(t, h, idx, (k - 1) as nat, midpt, endpt);
        la_try(prev.0, prev.1, idx, (k - 1) / 3 - 1, (k - 1) % 3 - 1, midpt, endpt)
    }
}

/// Tries all nine thrusts from table entry `idx`.
#[verifier::rlimit(100)]
#[verifier::spinoff_prover]
fn la_expand_all(
    table: &mut Vec<(SearchKey, i32, usize)>,
    heap: &mut Vec<(i32, bool, (i32, i32), (i32, i32), usize)>,
    idx: usize,
    midpt: (i32, i32),
    endpt: (i32, i32),
    Ghost(start): Ghost<SearchKey>,
)
    requires
        table_ok(old(table)@, start, midpt),
        frontier_ok(old(heap)@, old(table)@),
        idx < old(table).len(),
    ensures
        table_ok(final(table)@, start, midpt),
        frontier_ok(final(heap)@, final(table)@),
        final(table)@[idx as int] == old(table)@[idx as int],
        la_kept(old(table)@, final(table)@),
        la_extends(old(heap)@, final(heap)@),
        la_changes_queued(final(heap)@, final(table)@, old(table)@),
        la_phi(final(heap)@, final(table)@) <= la_phi(old(heap)@, old(table)@),
        la_expanded(final(table)@, idx as int, midpt, endpt),
        (final(table)@, final(heap)@) == la_expand_spec(old(table)@, old(heap)@, idx as int, 9, midpt, endpt),
{
    let ghost t0 = table@;
    let ghost h1 = heap@;
    let ghost st = t0[idx as int].0;
    let ghost score = t0[idx as int].1 as int;
    let mut ax: i32 = -1;
    while ax <= 1
        invariant
            -1 <= ax <= 2,
            table_ok(table@, start, midpt),
            frontier_ok(heap@, table@),
            0 <= idx < t0.len(),
            st == t0[idx as int].0,
            score == t0[idx as int].1,
            table@[idx as int] == t0[idx as int],
            table.len() >= t0.len(),
            la_kept(t0, table@),
            la_extends(h1, heap@),
            la_changes_queued(heap@, table@, t0),
            la_phi(heap@, table@) <= la_phi(h1, t0),
            la_tried_before(table@, st, score, ax as int, -1, midpt, endpt),
            (table@, heap@) == la_expand_spec(t0, h1, idx as int, ((ax + 1) * 3) as nat, midpt, endpt),
        decreases 2 - ax,
    {
        let mut ay: i32 = -1;
        while ay <= 1
            invariant
                -1 <= ax <= 1,
                -1 <= ay <= 2,
                table_ok(table@, start, midpt),
                frontier_ok(heap@, table@),
                0 <= idx < t0.len(),
                st == t0[idx as int].0,
                score == t0[idx as int].1,
                table@[idx as int] == t0[idx as int],
                table.len() >= t0.len(),
                la_kept(t0, table@),
                la_extends(h1, heap@),
                la_changes_queued(heap@, table@, t0),
                la_phi(heap@, table@) <= la_phi(h1, t0),
                la_tried_before(table@, st, score, ax as int, ay as int, midpt, endpt),
                (table@, heap@) == la_expand_spec(t0, h1, idx as int, ((ax + 1) * 3 + ay + 1) as nat, midpt, endpt),
            decreases 2 - ay,
        {
            let ghost ta = table@;
            let ghost ha = heap@;
            try_move(table, heap, idx, ax, ay, midpt, endpt, Ghost(start));
            proof {
                let k = ((ax + 1) * 3 + ay + 1) as nat;
                assert((k + 1 - 1) / 3 - 1 == ax && (k + 1 - 1) % 3 - 1 == ay);
                assert(ta[idx as int] == t0[idx as int]);
            }
            proof {
                lemma_la_try_step(t0, h1, ta, ha, table@, heap@, st, score, ax as int, ay as int, midpt, endpt);
            }
            ay = ay + 1;
        }
        proof {
            lemma_la_next_row(table@, st, score, ax as int, midpt, endpt);
        }
        ax = ax + 1;
    }
    proof {
        lemma_la_tried_all(table@, idx as int, midpt, endpt);
    }
}

/// After taking frontier entry `b` (for table entry `idx`, not at the goal)
/// and expanding it, every entry is again settled and every goal entry is in
/// the frontier.
proof fn lemma_la_round(
    h0: Seq<(i32, bool, (i32, i32), (i32, i32), usize)>,
    t0: Seq<(SearchKey, i32, usize)>,
    b: int,
    h: Seq<(i32, bool, (i32, i32), (i32, i32), usize)>,
    t: Seq<(SearchKey, i32, usize)>,
    idx: int,
    midpt: (i32, i32),
    endpt: (i32, i32),
)
    requires
        la_settled(h0, t0, midpt, endpt),
        la_goals(h0, t0, endpt),
        0 <= b < h0.len(),
        h0[b].4 == idx,
        0 <= idx < t0.len(),
        !la_goal(t0[idx].0, endpt),
        la_extends(h0.remove(b), h),
        la_kept(t0, t),
        la_changes_queued(h, t, t0),
        t[idx] == t0[idx],
        la_expanded(t, idx, midpt, endpt),
    ensures
        la_settled(h, t, midpt, endpt),
        la_goals(h, t, endpt),
{
    let hr = h0.remove(b);
    assert forall|k: int| #![trigger h0[k]] 0 <= k < h0.len() && k != b implies exists|q: int|
        0 <= q < h.len() && #[trigger] h[q] == h0[k] by {
        if k < b {
            assert(h[k] == hr[k]);
        } else {
            assert(h[k - 1] == hr[k - 1]);
        }
    }
    assert forall|i: int| 0 <= i < t.len() implies #[trigger] la_queued(h, i) || la_expanded(t, i, midpt, endpt) by {
        if i >= t0.len() || t[i].1 < t0[i].1 {
            assert(la_queued(h, i));
        } else if i == idx {
        } else {
            assert(t[i].0 == t0[i].0 && t[i].1 == t0[i].1);
            if la_queued(h0, i) {
                let k = choose|k: int| 0 <= k < h0.len() && (#[trigger] h0[k]).4 == i;
                assert(k != b);
                let q = choose|q: int| 0 <= q < h.len() && #[trigger] h[q] == h0[k];
                assert(h[q].4 == i);
            } else {
                assert(la_expanded(t0, i, midpt, endpt));
                assert forall|ax: int, ay: int| #![trigger la_move_ok(t[i].0, t[i].1 as int, ax, ay, midpt, endpt)]
                    la_move_ok(t[i].0, t[i].1 as int, ax, ay, midpt, endpt) implies exists|j: int|
                    0 <= j < t.len() && (#[trigger] t[j]).0 == la_succ(t[i].0, ax, ay, midpt) && t[j].1 <= t[i].1 + 1 by {
                    assert(la_move_ok(t0[i].0, t0[i].1 as int, ax, ay, midpt, endpt));
                    let j = choose|j: int| 0 <= j < t0.len() && (#[trigger] t0[j]).0 == la_succ(t0[i].0, ax, ay, midpt) && t0[j].1 <= t0[i].1 + 1;
                    assert(t[j].0 == t0[j].0);
                }
            }
        }
    }
    assert forall|i: int| 0 <= i < t.len() && la_goal((#[trigger] t[i]).0, endpt) implies la_queued(h, i) by {
        if i >= t0.len() || t[i].1 < t0[i].1 {
        } else {
            assert(t[i].0 == t0[i].0);
            assert(la_queued(h0, i));
            let k = choose|k: int| 0 <= k < h0.len() && (#[trigger] h0[k]).4 == i;
            assert(i != idx);
            assert(k != b);
            let q = choose|q: int| 0 <= q < h.len() && #[trigger] h[q] == h0[k];
            assert(h[q].4 == i);
        }
    }
}

/// With every entry expanded and none at the goal, no route from a table
/// entry reaches the goal.
proof fn lemma_no_la_route(t: Seq<(SearchKey, i32, usize)>, i: int, d: int, a: Seq<(i32, i32)>, midpt: (i32, i32), endpt: (i32, i32))
    requires
        0 <= i < t.len(),
        0 <= t[i].1 <= d,
        forall|j: int| 0 <= j < t.len() ==> la_expanded(t, j, midpt, endpt),
        forall|j: int| 0 <= j < t.len() ==> !la_goal((#[trigger] t[j]).0, endpt),
        forall|j: int| 0 <= j < t.len() ==> (#[trigger] t[j]).1 >= 0,
    ensures
        !la_route_ok(t[i].0, d, a, midpt, endpt),
    decreases a.len(),
{
    assert(!la_goal(t[i].0, endpt));
    if a.len() > 0 && la_move_ok(t[i].0, d, a[0].0 as int, a[0].1 as int, midpt, endpt) {
        let ax = a[0].0 as int;
        let ay = a[0].1 as int;
        let st = t[i].0;
        let nv = ((st.1.0 + ax) as i32, (st.1.1 + ay) as i32);
        let np = ((st.0.0 + nv.0) as i32, (st.0.1 + nv.1) as i32);
        lemma_estimate_nonneg(np, nv, st.2, midpt, endpt);
        assert(la_move_ok(t[i].0, t[i].1 as int, ax, ay, midpt, endpt));
        assert(la_expanded(t, i, midpt, endpt));
        let j = choose|j: int| 0 <= j < t.len() && (#[trigger] t[j]).0 == la_succ(t[i].0, ax, ay, midpt) && t[j].1 <= t[i].1 + 1;
        lemma_no_la_route(t, j, d + 1, a.drop_first(), midpt, endpt);
    }
}

/// Prepending the thrust that leads from `prev` to `cur` to thrusts from
/// `cur` gives thrusts from `prev` that end in the same place.
proof fn lemma_run_prepend(prev: SearchKey, cur: SearchKey, midpt: (i32, i32), a: Seq<(i32, i32)>)
    requires
        step_ok(prev, cur, midpt),
    ensures
        ({
            let acc = ((cur.1.0 - prev.1.0) as i32, (cur.1.1 - prev.1.1) as i32);
            run(pt(prev.0), pt(prev.1), seq![acc] + a) == run(pt(cur.0), pt(cur.1), a)
        }),
{
    let acc = ((cur.1.0 - prev.1.0) as i32, (cur.1.1 - prev.1.1) as i32);
    assert((seq![acc] + a).drop_first() =~= a);
}

/// The walk of `follow_backtrack` from table entry `cur` back to the start,
/// with the thrusts `suf` already found after `cur`: each step puts the
/// thrust from the entry's origin to it in front, and notes, where the entry
/// stands at the middle point, how many thrusts follow it and its velocity
/// (the last note, nearest the start, stays).
pub open spec fn la_walk(
    t: Seq<TableEntry>,
    cur: int,
    fuel: nat,
    suf: Seq<(i32, i32)>,
    mid: Option<(int, (i32, i32))>,
    midpt: (i32, i32),
) -> (Seq<(i32, i32)>, Option<(int, (i32, i32))>)
    decreases fuel,
{
    if cur <= 0 || cur >= t.len() || fuel == 0 {
        (suf, mid)
    } else {
        let st = t[cur].0;
        let mid2 = if st.0 == midpt {
            Some((suf.len() as int, st.1))
        } else {
            mid
        };
        let p = t[cur].2 as int;
        let acc = ((st.1.0 - t[p].0.1.0) as i32, (st.1.1 - t[p].0.1.1) as i32);
        la_walk(t, p, (fuel - 1) as nat, seq![acc] + suf, mid2, midpt)
    }
}

/// The route to table entry `g`, cut where it first reaches the middle
/// point: the thrusts before and after, and the velocity there.
pub open spec fn la_route_of(t: Seq<TableEntry>, g: int, midpt: (i32, i32)) -> (Seq<(i32, i32)>, Seq<(i32, i32)>, (i32, i32)) {
    let w = la_walk(t, g, t[g].1 as nat, Seq::empty(), None, midpt);
    let k = w.0.len() - w.1.unwrap().0;
    (w.0.take(k), w.0.skip(k), w.1.unwrap().1)
}

/// The thrusts from the start to the state of table entry `g` (which has
/// passed the middle point), cut where the route first reaches the middle
/// point: the thrusts before and after it, and the velocity there.
#[verifier::rlimit(100)]
#[verifier::spinoff_prover]
fn follow_backtrack(
    t: &Vec<(SearchKey, i32, usize)>,
    g: usize,
    midpt: (i32, i32),
    Ghost(start): Ghost<SearchKey>,
) -> (r: (Vec<(i32, i32)>, Vec<(i32, i32)>, (i32, i32)))
    requires
        table_ok(t@, start, midpt),
        g < t.len(),
        t@[g as int].0.2,
    ensures
        thrusts_ok(r.0@),
        thrusts_ok(r.1@),
        run(pt(start.0), pt(start.1), r.0@) == (pt(midpt), pt(r.2)),
        run(pt(midpt), pt(r.2), r.1@) == (pt(t@[g as int].0.0), pt(t@[g as int].0.1)),
        (r.0@, r.1@, r.2) == la_route_of(t@, g as int, midpt),
{
    let ghost goal = (pt(t@[g as int].0.0), pt(t@[g as int].0.1));
    let mut cur = g;
    let mut suf: Vec<(i32, i32)> = Vec::new();
    let mut found = false;
    let mut after_len: usize = 0;
    let mut midv: (i32, i32) = (0, 0);
    let ghost mut fuel: nat = t@[g as int].1 as nat;
    proof {
        assert(t@[g as int].1 >= 0) by {
            if g > 0 {
                assert(1 <= t@[g as int].1);
            }
        }
    }
    while cur != 0
        invariant
            fuel >= t@[cur as int].1,
            t@[cur as int].1 >= 0,
            la_walk(t@, g as int, t@[g as int].1 as nat, Seq::empty(), None, midpt) == la_walk(
                t@,
                cur as int,
                fuel,
                suf@,
                if found {
                    Some((after_len as int, midv))
                } else {
                    None
                },
                midpt,
            ),
            table_ok(t@, start, midpt),
            cur < t.len(),
            goal == (pt(t@[g as int].0.0), pt(t@[g as int].0.1)),
            run(pt(t@[cur as int].0.0), pt(t@[cur as int].0.1), suf@) == goal,
            thrusts_ok(suf@),
            found || t@[cur as int].0.2,
            found ==> {
                &&& after_len <= suf.len()
                &&& run(pt(t@[cur as int].0.0), pt(t@[cur as int].0.1), suf@.subrange(0, suf.len() - after_len))
                    == (pt(midpt), pt(midv))
                &&& run(pt(midpt), pt(midv), suf@.subrange(suf.len() - after_len, suf.len() as int)) == goal
            },
        decreases t@[cur as int].1,
    {
        let st = t[cur].0;
        if st.0.0 == midpt.0 && st.0.1 == midpt.1 {
            found = true;
            after_len = suf.len();
            midv = st.1;
            assert(suf@.subrange(0, 0) =~= Seq::<(i32, i32)>::empty());
            assert(suf@.subrange(0, suf.len() as int) =~= suf@);
        }
        let p = t[cur].2;
        let pv = t[p].0.1;
        assert(step_ok(t@[p as int].0, st, midpt));
        let acc = (st.1.0 - pv.0, st.1.1 - pv.1);
        let ghost old_suf = suf@;
        suf.insert(0, acc);
        assert(suf@ =~= seq![acc] + old_suf);
        proof {
            lemma_run_prepend(t@[p as int].0, st, midpt, old_suf);
            if found {
                let n = old_suf.len() as int;
                assert(suf@.subrange(0, suf.len() - after_len) =~= seq![acc] + old_suf.subrange(0, n - after_len));
                lemma_run_prepend(t@[p as int].0, st, midpt, old_suf.subrange(0, n - after_len));
                assert(suf@.subrange(suf.len() - after_len, suf.len() as int) =~= old_suf.subrange(
                    n - after_len,
                    n,
                ));
            }
            assert forall|i: int| 0 <= i < suf@.len() implies -1 <= (#[trigger] suf@[i]).0 <= 1 && -1 <= suf@[i].1
                <= 1 by {
                if i > 0 {
                    assert(suf@[i] == old_suf[i - 1]);
                }
            }
        }
        proof {
            fuel = (fuel - 1) as nat;
            assert(t@[p as int].1 >= 0) by {
                if p > 0 {
                    assert(1 <= t@[p as int].1);
                }
            }
        }
        cur = p;
    }
    assert(found);
    let split = suf.len() - after_len;
    let ghost whole = suf@;
    let after = suf.split_off(split);
    assert(suf@ =~= whole.take(split as int));
    assert(after@ =~= whole.skip(split as int));
    (suf, after, midv)
}

/// How the search from table `t` and frontier `h` ends within `fuel` rounds:
/// each round takes the first frontier entry in the frontier order (see
/// `best_in`); `None` when that entry has passed the middle point and stands
/// at the end point (a route is found), else its nine thrusts are tried
/// (see `la_expand_spec`) and, unless `force`, the search gives up with
/// `TooLarge` when the frontier then holds more than a million entries;
/// `Exhausted` when the frontier runs empty.
#[verifier::opaque]
pub open spec fn la_outcome(
    t: Seq<TableEntry>,
    h: Seq<HeapEntry>,
    fuel: nat,
    force: bool,
    midpt: (i32, i32),
    endpt: (i32, i32),
) -> Result<(Seq<TableEntry>, int), SearchError>
    decreases fuel,
{
    if h.len() == 0 || fuel == 0 {
        Err(SearchError::Exhausted)
    } else {
        let b = best_in(h, h.len() as int);
        let top = h[b];
        if top.1 && top.2 == endpt {
            Ok((t, top.4 as int))
        } else {
            let next = la_expand_spec(t, h.remove(b), top.4 as int, 9, midpt, endpt);
            if next.1.len() > 1_000_000 && !force {
                Err(SearchError::TooLarge)
            } else {
                la_outcome(next.0, next.1, (fuel - 1) as nat, force, midpt, endpt)
            }
        }
    }
}

proof fn lemma_outcome_empty(t: Seq<TableEntry>, h: Seq<HeapEntry>, fuel: nat, force: bool, midpt: (i32, i32), endpt: (i32, i32))
    requires
        h.len() == 0,
    ensures
        la_outcome(t, h, fuel, force, midpt, endpt) == Err::<(Seq<TableEntry>, int), SearchError>(SearchError::Exhausted),
{
    reveal(la_outcome);
}

proof fn lemma_outcome_found(t: Seq<TableEntry>, h: Seq<HeapEntry>, fuel: nat, force: bool, midpt: (i32, i32), endpt: (i32, i32))
    requires
        h.len() > 0,
        fuel > 0,
        h[best_in(h, h.len() as int)].1,
        h[best_in(h, h.len() as int)].2 == endpt,
    ensures
        la_outcome(t, h, fuel, force, midpt, endpt) == Ok::<(Seq<TableEntry>, int), SearchError>((t, h[best_in(h, h.len() as int)].4 as int)),
{
    reveal(la_outcome);
}

proof fn lemma_outcome_round(
    t: Seq<TableEntry>,
    h: Seq<HeapEntry>,
    fuel: nat,
    force: bool,
    midpt: (i32, i32),
    endpt: (i32, i32),
    t2: Seq<TableEntry>,
    h2: Seq<HeapEntry>,
)
    requires
        h.len() > 0,
        fuel > 0,
        !(h[best_in(h, h.len() as int)].1 && h[best_in(h, h.len() as int)].2 == endpt),
        (t2, h2) == la_expand_spec(
            t,
            h.remove(best_in(h, h.len() as int)),
            h[best_in(h, h.len() as int)].4 as int,
            9,
            midpt,
            endpt,
        ),
    ensures
        la_outcome(t, h, fuel, force, midpt, endpt) == if h2.len() > 1_000_000 && !force {
            Err(SearchError::TooLarge)
        } else {
            la_outcome(t2, h2, (fuel - 1) as nat, force, midpt, endpt)
        },
{
    reveal(la_outcome);
}

/// How the search of `solve_lookahead_impl` ends (see `la_outcome`): it
/// starts from a table holding the start state with no steps and a frontier
/// holding that state, with fuel for as many rounds as it can take.
pub open spec fn la_search_outcome(
    inip: (i32, i32),
    iniv: (i32, i32),
    midpt: (i32, i32),
    endpt: (i32, i32),
    force: bool,
) -> Result<(Seq<TableEntry>, int), SearchError> {
    let t = seq![((inip, iniv, false), 0i32, 0usize)];
    let h = seq![(0i32, false, inip, iniv, 0usize)];
    la_outcome(t, h, la_phi(h, t) as nat, force, midpt, endpt)
}

/// Searches for thrusts from `inip` with velocity `iniv` that pass `midpt`
/// and end at `endpt`, best-first by steps taken plus
/// `calc_additional_estimate`; gives the thrusts up to the first arrival at
/// `midpt`, those after it, and the velocity there. Gives up with `TooLarge`
/// when the frontier exceeds a million entries unless `force_run`.
#[verifier::rlimit(100)]
#[verifier::spinoff_prover]
pub fn solve_lookahead_impl(
    inip: (i32, i32),
    iniv: (i32, i32),
    midpt: (i32, i32),
    endpt: (i32, i32),
    force_run: bool,
) -> (r: Result<(Vec<(i32, i32)>, Vec<(i32, i32)>, (i32, i32)), SearchError>)
    requires
        inip != midpt,
    ensures
        match r {
            Ok((a, b, v)) => {
                &&& thrusts_ok(a@)
                &&& thrusts_ok(b@)
                &&& run(pt(inip), pt(iniv), a@) == (pt(midpt), pt(v))
                &&& run(pt(midpt), pt(v), b@).0 == pt(endpt)
            },
            Err(SearchError::TooLarge) => !force_run,
            Err(SearchError::Exhausted) => forall|a: Seq<(i32, i32)>|
                !#[trigger] la_route_ok((inip, iniv, false), 0, a, midpt, endpt),
        },
        match la_search_outcome(inip, iniv, midpt, endpt, force_run) {
            Ok((t, g)) => r matches Ok((a, b, v)) && (a@, b@, v) == la_route_of(t, g, midpt),
            Err(e) => r matches Err(x) && x == e,
        },
{
    let start: SearchKey = (inip, iniv, false);
    let mut table: Vec<(SearchKey, i32, usize)> = Vec::new();
    table.push((start, 0, 0));
    let mut heap: Vec<(i32, bool, (i32, i32), (i32, i32), usize)> = Vec::new();
    heap.push((0, false, inip, iniv, 0));
    proof {
        assert(heap@[0].4 == 0);
        assert(la_queued(heap@, 0));
        assert(table@ =~= seq![((inip, iniv, false), 0i32, 0usize)]);
        assert(heap@ =~= seq![(0i32, false, inip, iniv, 0usize)]);
        assert(ssum(table@) == 0) by {
            assert(table@.drop_last() =~= Seq::<TableEntry>::empty());
            assert(ssum(Seq::<TableEntry>::empty()) == 0);
            assert(ssum(table@) == ssum(table@.drop_last()) + table@.last().1);
        }
    }
    let ghost mut fuel: nat = la_phi(heap@, table@) as nat;
    while heap.len() > 0
        invariant
            table_ok(table@, start, midpt),
            frontier_ok(heap@, table@),
            la_settled(heap@, table@, midpt, endpt),
            la_goals(heap@, table@, endpt),
            start == (inip, iniv, false),
            fuel >= la_phi(heap@, table@),
            la_search_outcome(inip, iniv, midpt, endpt, force_run) == la_outcome(
                table@,
                heap@,
                fuel,
                force_run,
                midpt,
                endpt,
            ),
        decreases la_phi(heap@, table@),
    {
        proof {
            lemma_la_table_size(table@, start, midpt);
            lemma_ssum_nonneg(table@);
        }
        let ghost h0 = heap@;
        let ghost t0 = table@;
        let top = take_best(&mut heap);
        let ghost b = best_in(h0, h0.len() as int);
        proof {
            lemma_best_in_range(h0, h0.len() as int);
        }
        assert(frontier_ok(heap@, table@)) by {
            assert forall|k: int| 0 <= k < heap@.len() implies {
                &&& (#[trigger] heap@[k]).4 < table@.len()
                &&& table@[heap@[k].4 as int].0 == (heap@[k].2, heap@[k].3, heap@[k].1)
            } by {
                let j = choose|j: int| 0 <= j < h0.len() && h0[j] == heap@[k];
                assert(h0[j].4 < table@.len());
            }
        }
        let idx = top.4;
        assert(table@[idx as int].0 == (top.2, top.3, top.1)) by {
            assert(h0[b].4 < table@.len());
        }
        let position = top.2;
        proof {
            assert(fuel > 0);
        }
        if top.1 && position.0 == endpt.0 && position.1 == endpt.1 {
            proof {
                lemma_outcome_found(t0, h0, fuel, force_run, midpt, endpt);
            }
            let (a, b, v) = follow_backtrack(&table, idx, midpt, Ghost(start));
            return Ok((a, b, v));
        }
        let ghost h1 = heap@;
        la_expand_all(&mut table, &mut heap, idx, midpt, endpt, Ghost(start));
        proof {
            lemma_la_round(h0, t0, b, heap@, table@, idx as int, midpt, endpt);
            assert(la_phi(h1, t0) == la_phi(h0, t0) - 1);
            lemma_la_table_size(table@, start, midpt);
            lemma_ssum_nonneg(table@);
        }
        proof {
            lemma_outcome_round(t0, h0, fuel, force_run, midpt, endpt, table@, heap@);
        }
        if heap.len() > 1_000_000 && !force_run {
            return Err(SearchError::TooLarge);
        }
        proof {
            fuel = (fuel - 1) as nat;
        }
    }
    proof {
        lemma_outcome_empty(table@, heap@, fuel, force_run, midpt, endpt);
        assert forall|j: int| 0 <= j < table@.len() implies la_expanded(table@, j, midpt, endpt) by {
            assert(!la_queued(heap@, j));
        }
        assert forall|j: int| 0 <= j < table@.len() implies !la_goal((#[trigger] table@[j]).0, endpt) by {
            if la_goal(table@[j].0, endpt) {
                assert(la_queued(heap@, j));
            }
        }
        assert forall|a: Seq<(i32, i32)>| !#[trigger] la_route_ok((inip, iniv, false), 0, a, midpt, endpt) by {
            lemma_no_la_route(table@, 0, 0, a, midpt, endpt);
        }
    }
    Err(SearchError::Exhausted)
}

/// Moving the start by `q` moves the end by `q` and keeps the velocity.
proof fn lemma_run_shift(p: (int, int), q: (int, int), v: (int, int), a: Seq<(i32, i32)>)
    ensures
        run((p.0 + q.0, p.1 + q.1), v, a) == ((run(p, v, a).0.0 + q.0, run(p, v, a).0.1 + q.1), run(p, v, a).1),
    decreases a.len(),
{
    if a.len() > 0 {
        let w = (v.0 + a[0].0, v.1 + a[0].1);
        lemma_run_shift((p.0 + w.0, p.1 + w.1), q, w, a.drop_first());
        assert((p.0 + q.0 + w.0, p.1 + q.1 + w.1) == ((p.0 + w.0) + q.0, (p.1 + w.1) + q.1));
    }
}

/// A remembered search: the middle and end points relative to the start, the
/// start velocity, and the result found for them.
pub type MemoEntry = ((i32, i32), (i32, i32), (i32, i32), Vec<(i32, i32)>, Vec<(i32, i32)>, (i32, i32));

/// Every remembered result holds from the origin: its first thrusts lead to
/// the middle point with its velocity, and the rest end at the end point (or,
/// for a search cut short, back at the middle point).
pub open spec fn memo_ok(m: Seq<MemoEntry>) -> bool {
    forall|k: int|
        0 <= k < m.len() ==> {
            let e = #[trigger] m[k];
            &&& thrusts_ok(e.3@)
            &&& thrusts_ok(e.4@)
            &&& run((0, 0), pt(e.2), e.3@) == (pt(e.0), pt(e.5))
            &&& (run(pt(e.0), pt(e.5), e.4@).0 == pt(e.1) || run(pt(e.0), pt(e.5), e.4@).0 == pt(e.0))
        }
}

/// A copy of the thrusts.
fn copy_thrusts(v: &Vec<(i32, i32)>) -> (r: Vec<(i32, i32)>)
    ensures
        r@ == v@,
{
    let mut r: Vec<(i32, i32)> = Vec::new();
    let mut i: usize = 0;
    while i < v.len()
        invariant
            i <= v.len(),
            r@ == v@.subrange(0, i as int),
        decreases v.len() - i,
    {
        r.push(v[i]);
        i = i + 1;
        assert(r@ =~= v@.subrange(0, i as int));
    }
    assert(v@.subrange(0, v.len() as int) =~= v@);
    r
}

/// A remembered search as plain values.
pub type MemoModel = ((i32, i32), (i32, i32), (i32, i32), Seq<(i32, i32)>, Seq<(i32, i32)>, (i32, i32));

/// The remembered searches as plain values.
pub open spec fn memo_view(m: Seq<MemoEntry>) -> Seq<MemoModel> {
    Seq::new(m.len(), |k: int| (m[k].0, m[k].1, m[k].2, m[k].3@, m[k].4@, m[k].5))
}

/// The first remembered search from entry `k` on for the middle and end
/// points `dm`, `de` relative to the start and the start velocity `v`.
pub open spec fn memo_hit(m: Seq<MemoModel>, dm: (i32, i32), de: (i32, i32), v: (i32, i32), k: int) -> Option<int>
    decreases m.len() - k,
{
    if k < 0 || k >= m.len() {
        None
    } else if m[k].0 == dm && m[k].1 == de && m[k].2 == v {
        Some(k)
    } else {
        memo_hit(m, dm, de, v, k + 1)
    }
}

/// What `solve_lookahead_impl` returns, as plain values (see
/// `la_search_outcome` and `la_route_of`).
pub open spec fn impl_result(inip: (i32, i32), iniv: (i32, i32), midpt: (i32, i32), endpt: (i32, i32), force: bool) -> Result<
    (Seq<(i32, i32)>, Seq<(i32, i32)>, (i32, i32)),
    SearchError,
> {
    match la_search_outcome(inip, iniv, midpt, endpt, force) {
        Ok((t, g)) => Ok(la_route_of(t, g, midpt)),
        Err(e) => Err(e),
    }
}

/// What `solve_lookahead` returns, and the remembered searches after it: a
/// remembered search for the same relative points and start velocity is
/// given back; else the search runs, and when it gives up the middle point
/// alone is searched for, to the end; a result found is remembered.
#[verifier::opaque]
pub open spec fn lookahead_result(m: Seq<MemoModel>, inip: (i32, i32), iniv: (i32, i32), midpt: (i32, i32), endpt: (i32, i32)) -> (
    Result<(Seq<(i32, i32)>, Seq<(i32, i32)>, (i32, i32)), SearchError>,
    Seq<MemoModel>,
) {
    let dm = ((midpt.0 - inip.0) as i32, (midpt.1 - inip.1) as i32);
    let de = ((endpt.0 - inip.0) as i32, (endpt.1 - inip.1) as i32);
    match memo_hit(m, dm, de, iniv, 0) {
        Some(k) => (Ok((m[k].3, m[k].4, m[k].5)), m),
        None => {
            let res = match impl_result(inip, iniv, midpt, endpt, false) {
                Ok(x) => Ok(x),
                Err(_) => impl_result(inip, iniv, midpt, midpt, true),
            };
            match res {
                Ok((a, b, v)) => (Ok((a, b, v)), m.push((dm, de, iniv, a, b, v))),
                Err(_) => (Err(SearchError::Exhausted), m),
            }
        },
    }
}

/// `solve_lookahead_impl`, remembering results by the middle and end points
/// relative to the start and the start velocity. When the search gives up
/// because the frontier grew too large, the middle point alone is searched
/// for, to the end; its result is remembered in place of the full one.
pub fn solve_lookahead(
    inip: (i32, i32),
    iniv: (i32, i32),
    midpt: (i32, i32),
    endpt: (i32, i32),
    memo: &mut Vec<MemoEntry>,
) -> (r: Result<(Vec<(i32, i32)>, Vec<(i32, i32)>, (i32, i32)), SearchError>)
    requires
        inip != midpt,
        fits(midpt.0 - inip.0),
        fits(midpt.1 - inip.1),
        fits(endpt.0 - inip.0),
        fits(endpt.1 - inip.1),
        memo_ok(old(memo)@),
    ensures
        memo_ok(final(memo)@),
        match r {
            Ok((a, b, v)) => {
                &&& thrusts_ok(a@)
                &&& thrusts_ok(b@)
                &&& run(pt(inip), pt(iniv), a@) == (pt(midpt), pt(v))
                &&& (run(pt(midpt), pt(v), b@).0 == pt(endpt) || run(pt(midpt), pt(v), b@).0 == pt(midpt))
            },
            Err(e) => e == SearchError::Exhausted && forall|a: Seq<(i32, i32)>|
                !#[trigger] la_route_ok((inip, iniv, false), 0, a, midpt, midpt),
        },
        match lookahead_result(memo_view(old(memo)@), inip, iniv, midpt, endpt).0 {
            Ok((a, b, v)) => r matches Ok((x, y, w)) && x@ == a && y@ == b && w == v,
            Err(e) => r matches Err(x) && x == e,
        },
        memo_view(final(memo)@) == lookahead_result(memo_view(old(memo)@), inip, iniv, midpt, endpt).1,
{
    proof {
        reveal(lookahead_result);
    }
    let dm = crate::lookahead::delta(midpt, inip);
    let de = crate::lookahead::delta(endpt, inip);
    let mut k: usize = 0;
    while k < memo.len()
        invariant
            k <= memo.len(),
            memo_ok(memo@),
            dm.0 == midpt.0 - inip.0,
            dm.1 == midpt.1 - inip.1,
            de.0 == endpt.0 - inip.0,
            de.1 == endpt.1 - inip.1,
            memo@ == old(memo)@,
            memo_hit(memo_view(memo@), dm, de, iniv, 0) == memo_hit(memo_view(memo@), dm, de, iniv, k as int),
        decreases memo.len() - k,
    {
        let e = &memo[k];
        if e.0.0 == dm.0 && e.0.1 == dm.1 && e.1.0 == de.0 && e.1.1 == de.1 && e.2.0 == iniv.0 && e.2.1 == iniv.1 {
            let a = copy_thrusts(&e.3);
            let b = copy_thrusts(&e.4);
            let v = e.5;
            proof {
                reveal(lookahead_result);
                assert(memo_hit(memo_view(memo@), dm, de, iniv, k as int) == Some(k as int));
                let ent = memo@[k as int];
                assert(run((0, 0), pt(ent.2), ent.3@) == (pt(ent.0), pt(ent.5)));
                lemma_run_shift((0, 0), pt(inip), pt(iniv), a@);
                assert(pt(inip) == (0 + inip.0 as int, 0 + inip.1 as int));
                lemma_run_shift(pt(ent.0), pt(inip), pt(v), b@);
                assert(ent.0 == dm && ent.1 == de && ent.2 == iniv);
                assert((pt(ent.0).0 + pt(inip).0, pt(ent.0).1 + pt(inip).1) == pt(midpt));
                assert((0 + pt(inip).0, 0 + pt(inip).1) == pt(inip));
                assert(run(pt(inip), pt(iniv), a@) == (pt(midpt), pt(v)));
            }
            return Ok((a, b, v));
        }
        k = k + 1;
    }
    let res = match solve_lookahead_impl(inip, iniv, midpt, endpt, false) {
        Ok(x) => x,
        Err(_) => match solve_lookahead_impl(inip, iniv, midpt, midpt, true) {
            Ok(x) => x,
            Err(_) => {
                return Err(SearchError::Exhausted);
            },
        },
    };
    let (a, b, v) = res;
    let ca = copy_thrusts(&a);
    let cb = copy_thrusts(&b);
    proof {
        let neg = (-inip.0 as int, -inip.1 as int);
        lemma_run_shift(pt(inip), neg, pt(iniv), a@);
        assert((pt(inip).0 + neg.0, pt(inip).1 + neg.1) == (0int, 0int));
        lemma_run_shift(pt(midpt), neg, pt(v), b@);
        assert((pt(midpt).0 + neg.0, pt(midpt).1 + neg.1) == pt(dm));
    }
    let ghost m0 = memo@;
    memo.push((dm, de, iniv, ca, cb, v));
    assert(memo_view(memo@) =~= memo_view(m0).push((dm, de, iniv, a@, b@, v)));
    assert forall|j: int| 0 <= j < memo@.len() implies {
        let e = #[trigger] memo@[j];
        &&& thrusts_ok(e.3@)
        &&& thrusts_ok(e.4@)
        &&& run((0, 0), pt(e.2), e.3@) == (pt(e.0), pt(e.5))
        &&& (run(pt(e.0), pt(e.5), e.4@).0 == pt(e.1) || run(pt(e.0), pt(e.5), e.4@).0 == pt(e.0))
    } by {
        if j < m0.len() {
            assert(memo@[j] == m0[j]);
        }
    }
    Ok((a, b, v))
}

/// Thrusts `x` then `y` end where `y` ends from the end of `x`.
proof fn lemma_run_concat(p: (int, int), v: (int, int), x: Seq<(i32, i32)>, y: Seq<(i32, i32)>)
    ensures
        run(p, v, x + y) == run(run(p, v, x).0, run(p, v, x).1, y),
    decreases x.len(),
{
    if x.len() == 0 {
        assert(x + y =~= y);
    } else {
        let w = (v.0 + x[0].0, v.1 + x[0].1);
        assert((x + y).drop_first() =~= x.drop_first() + y);
        lemma_run_concat((p.0 + w.0, p.1 + w.1), w, x.drop_first(), y);
    }
}

/// The keypad characters of the thrusts.
pub open spec fn keys_of(a: Seq<(i32, i32)>) -> Seq<char> {
    a.map_values(|x: (i32, i32)| keypad_char(x))
}

/// From rest at the origin, the route `a` is at `pts[j]` after `ts[j]`
/// thrusts, for the first `ts.len()` points, at times that never go back.
pub open spec fn visit_prefix(a: Seq<(i32, i32)>, pts: Seq<(i32, i32)>, ts: Seq<int>) -> bool {
    &&& ts.len() <= pts.len()
    &&& forall|j: int| 0 <= j < ts.len() ==> 0 <= #[trigger] ts[j] <= a.len()
    &&& forall|j: int, l: int| 0 <= j <= l < ts.len() ==> #[trigger] ts[j] <= #[trigger] ts[l]
    &&& forall|j: int| 0 <= j < ts.len() ==> run((0, 0), (0, 0), a.take(#[trigger] ts[j])).0 == pt(pts[j])
}

/// From rest at the origin, the route `a` passes through the points `pts`
/// in order.
pub open spec fn visits_in_order(a: Seq<(i32, i32)>, pts: Seq<(i32, i32)>) -> bool {
    exists|ts: Seq<int>| visit_prefix(a, pts, ts) && ts.len() == pts.len()
}

/// Appending thrusts keeps the times already found; the points from
/// `ts.len()` up to `upto` (all equal to `q`, where the longer route ends) get
/// its end as their time.
proof fn lemma_extend(a: Seq<(i32, i32)>, y: Seq<(i32, i32)>, pts: Seq<(i32, i32)>, ts: Seq<int>, upto: int, q: (i32, i32))
    requires
        visit_prefix(a, pts, ts),
        ts.len() <= upto <= pts.len(),
        forall|j: int| ts.len() <= j < upto ==> #[trigger] pts[j] == q,
        run((0, 0), (0, 0), a + y).0 == pt(q),
    ensures
        visit_prefix(a + y, pts, ts + Seq::new((upto - ts.len()) as nat, |j: int| (a + y).len() as int)),
{
    let b = a + y;
    let ts2 = ts + Seq::new((upto - ts.len()) as nat, |j: int| b.len() as int);
    assert forall|j: int| 0 <= j < ts2.len() implies run((0, 0), (0, 0), b.take(#[trigger] ts2[j])).0 == pt(pts[j]) by {
        if j < ts.len() {
            assert(ts2[j] == ts[j]);
            assert(b.take(ts[j]) =~= a.take(ts[j]));
        } else {
            assert(b.take(b.len() as int) =~= b);
        }
    }
    assert forall|j: int, l: int| 0 <= j <= l < ts2.len() implies #[trigger] ts2[j] <= #[trigger] ts2[l] by {
        if l < ts.len() {
            assert(ts[j] <= ts[l]);
        } else if j < ts.len() {
            assert(ts[j] <= a.len());
        }
    }
}

/// Every position and velocity on the way of the thrusts `a` from `p` with
/// velocity `v` is a value of `i32`.
pub open spec fn run_fits(p: (int, int), v: (int, int), a: Seq<(i32, i32)>) -> bool
    decreases a.len(),
{
    a.len() == 0 || {
        let w = (v.0 + a[0].0, v.1 + a[0].1);
        let q = (p.0 + w.0, p.1 + w.1);
        fits(w.0) && fits(w.1) && fits(q.0) && fits(q.1) && run_fits(q, w, a.drop_first())
    }
}

/// The thrust along one axis that brakes the velocity `v`.
pub open spec fn brake(v: int) -> int {
    if v > 0 {
        -1
    } else if v < 0 {
        1
    } else {
        0
    }
}

/// Where the ship comes to rest from `p` with velocity `v` when it brakes on
/// both axes at every step; `None` when a position on the way leaves `i32`.
pub open spec fn stop_rest(p: (int, int), v: (int, int)) -> Option<(int, int)>
    decreases iabs(v.0) + iabs(v.1),
{
    if v.0 == 0 && v.1 == 0 {
        Some(p)
    } else {
        let w = (v.0 + brake(v.0), v.1 + brake(v.1));
        let q = (p.0 + w.0, p.1 + w.1);
        if fits(q.0) && fits(q.1) {
            stop_rest(q, w)
        } else {
            None
        }
    }
}

/// The thrusts that brake on both axes from `p` with velocity `v` until the
/// ship rests; `None` when a position on the way leaves `i32`.
pub open spec fn brake_route(p: (int, int), v: (int, int)) -> Option<Seq<(i32, i32)>>
    decreases iabs(v.0) + iabs(v.1),
{
    if v.0 == 0 && v.1 == 0 {
        Some(Seq::empty())
    } else {
        let w = (v.0 + brake(v.0), v.1 + brake(v.1));
        let q = (p.0 + w.0, p.1 + w.1);
        if fits(q.0) && fits(q.1) {
            match brake_route(q, w) {
                Some(r) => Some(seq![(brake(v.0) as i32, brake(v.1) as i32)] + r),
                None => None,
            }
        } else {
            None
        }
    }
}

/// The rest-to-rest thrusts that the fallback plans from `p` to `q`: the
/// plans of the two axes, the shorter padded with zero thrusts.
pub open spec fn fallback_route(p: (i32, i32), q: (i32, i32)) -> Seq<(i32, i32)> {
    let fx = fallback_plan(p.0 as int, q.0 as int);
    let fy = fallback_plan(p.1 as int, q.1 as int);
    let n = imax(fx.len() as int, fy.len() as int);
    Seq::new(n as nat, |i: int| (padded(fx, n)[i], padded(fy, n)[i]))
}

/// A far leg from `p` with velocity `v` to `target` fails: braking to rest
/// leaves `i32`, or from the resting point the target is more than a billion
/// away on an axis, or the planned rest-to-rest thrusts leave `i32`, miss the
/// target at rest, or are not keypad thrusts.
pub open spec fn far_leg_fails(p: (i32, i32), v: (i32, i32), target: (i32, i32)) -> bool {
    match stop_rest(pt(p), pt(v)) {
        None => true,
        Some(r) => {
            let fb = fallback_route((r.0 as i32, r.1 as i32), target);
            ||| !(-1_000_000_000 <= target.0 - r.0 <= 1_000_000_000)
            ||| !(-1_000_000_000 <= target.1 - r.1 <= 1_000_000_000)
            ||| !run_fits(r, (0, 0), fb)
            ||| run(r, (0, 0), fb) != (pt(target), (0int, 0int))
            ||| !thrusts_ok(fb)
        },
    }
}

/// The leg from `p` with velocity `v` to `target`, looking ahead to `next`,
/// fails: the offset to the target does not fit, a far leg (more than 1000
/// away) fails, the offset to `next` does not fit, or no route that stays
/// within the search's bounds reaches the target.
pub open spec fn leg_fails(p: (i32, i32), v: (i32, i32), target: (i32, i32), next: Option<(i32, i32)>) -> bool {
    if !(abs_fits(target.0 - p.0) && abs_fits(target.1 - p.1)) {
        true
    } else if chebyshev(p, target) > 1000 {
        far_leg_fails(p, v, target)
    } else {
        ||| (next matches Some(e) && !(fits(e.0 - p.0) && fits(e.1 - p.1)))
        ||| forall|a: Seq<(i32, i32)>| !#[trigger] la_route_ok((p, v, false), 0, a, target, target)
    }
}

/// The end of the thrusts `a` from `p` with velocity `v`, when every step
/// stays within `i32`.
fn run_exec(p: (i32, i32), v: (i32, i32), a: &Vec<(i32, i32)>) -> (r: Option<((i32, i32), (i32, i32))>)
    ensures
        r matches Some(x) ==> run(pt(p), pt(v), a@) == (pt(x.0), pt(x.1)),
        r is None <==> !run_fits(pt(p), pt(v), a@),
{
    let mut q = p;
    let mut w = v;
    let mut i: usize = 0;
    assert(a@.subrange(0, a.len() as int) =~= a@);
    while i < a.len()
        invariant
            i <= a.len(),
            run(pt(p), pt(v), a@) == run(pt(q), pt(w), a@.subrange(i as int, a.len() as int)),
            run_fits(pt(p), pt(v), a@) == run_fits(pt(q), pt(w), a@.subrange(i as int, a.len() as int)),
        decreases a.len() - i,
    {
        let ghost rest = a@.subrange(i as int, a.len() as int);
        let wx = w.0 as i64 + a[i].0 as i64;
        let wy = w.1 as i64 + a[i].1 as i64;
        if wx < i32::MIN as i64 || wx > i32::MAX as i64 || wy < i32::MIN as i64 || wy > i32::MAX as i64 {
            return None;
        }
        let qx = q.0 as i64 + wx;
        let qy = q.1 as i64 + wy;
        if qx < i32::MIN as i64 || qx > i32::MAX as i64 || qy < i32::MIN as i64 || qy > i32::MAX as i64 {
            return None;
        }
        assert(rest.drop_first() =~= a@.subrange(i + 1, a.len() as int));
        w = (wx as i32, wy as i32);
        q = (qx as i32, qy as i32);
        i = i + 1;
    }
    assert(a@.subrange(a.len() as int, a.len() as int) =~= Seq::<(i32, i32)>::empty());
    Some((q, w))
}

/// Appends the keypad characters of the thrusts to `buffer`.
fn append_keys(buffer: &mut String, a: Vec<(i32, i32)>)
    requires
        thrusts_ok(a@),
    ensures
        final(buffer)@ == old(buffer)@ + keys_of(a@),
{
    let ghost av = a@;
    assert forall|i: int| 0 <= i < a.len() implies #[trigger] has_key(a@[i]) by {
        assert(-1 <= a@[i].0 <= 1 && -1 <= a@[i].1 <= 1);
    }
    let enc = encode_thrust_into_keypad(a);
    append_str(buffer, enc.as_str());
    assert(enc@ =~= keys_of(av));
}

/// Thrusts against the velocity, one unit per axis per step, until the ship
/// rests; with the resting point. `None` when a step would leave `i32`.
fn stop_particle(p: (i32, i32), v: (i32, i32)) -> (r: Option<(Vec<(i32, i32)>, (i32, i32))>)
    ensures
        match r {
            Some((a, q)) => thrusts_ok(a@) && run(pt(p), pt(v), a@) == (pt(q), (0int, 0int)) && stop_rest(pt(p), pt(v))
                == Some(pt(q)) && brake_route(pt(p), pt(v)) == Some(a@),
            None => stop_rest(pt(p), pt(v)) is None,
        },
{
    let mut a: Vec<(i32, i32)> = Vec::new();
    let mut q = p;
    let mut w = v;
    while w.0 != 0 || w.1 != 0
        invariant
            thrusts_ok(a@),
            run(pt(p), pt(v), a@) == (pt(q), pt(w)),
            stop_rest(pt(p), pt(v)) == stop_rest(pt(q), pt(w)),
            brake_route(pt(p), pt(v)) == match brake_route(pt(q), pt(w)) {
                Some(r) => Some(a@ + r),
                None => None::<Seq<(i32, i32)>>,
            },
        decreases iabs(w.0 as int) + iabs(w.1 as int),
    {
        let acc: (i32, i32) = (if w.0 > 0 { -1 } else if w.0 < 0 { 1 } else { 0 }, if w.1 > 0 { -1 } else if w.1 < 0 { 1 } else { 0 });
        let nw = (w.0 + acc.0, w.1 + acc.1);
        let qx = q.0 as i64 + nw.0 as i64;
        let qy = q.1 as i64 + nw.1 as i64;
        if qx < i32::MIN as i64 || qx > i32::MAX as i64 || qy < i32::MIN as i64 || qy > i32::MAX as i64 {
            return None;
        }
        let ghost old_a = a@;
        a.push(acc);
        proof {
            lemma_run_concat(pt(p), pt(v), old_a, seq![acc]);
            assert(old_a + seq![acc] =~= a@);
            assert(seq![acc].drop_first() =~= Seq::<(i32, i32)>::empty());
            let e = (pt(q).0 + nw.0, pt(q).1 + nw.1);
            assert(run(e, pt(nw), Seq::<(i32, i32)>::empty()) == (e, pt(nw)));
            assert(run(pt(q), pt(w), seq![acc]) == (e, pt(nw)));
            assert forall|i: int| 0 <= i < a@.len() implies -1 <= (#[trigger] a@[i]).0 <= 1 && -1 <= a@[i].1 <= 1 by {
                if i < old_a.len() {
                    assert(a@[i] == old_a[i]);
                }
            }
            assert(brake(w.0 as int) as i32 == acc.0 && brake(w.1 as int) as i32 == acc.1);
            let q2 = (pt(q).0 + nw.0, pt(q).1 + nw.1);
            match brake_route(q2, pt(nw)) {
                Some(r) => {
                    assert(old_a + (seq![acc] + r) =~= a@ + r);
                },
                None => {},
            }
        }
        w = nw;
        q = (qx as i32, qy as i32);
    }
    assert(a@ + Seq::<(i32, i32)>::empty() =~= a@);
    Some((a, q))
}

/// The thrusts of one leg from `p` with velocity `v` to `target`, looking
/// ahead to `next`, with the velocity on arrival, and the remembered
/// searches after it (see `leg`): `None` exactly when the leg fails (see
/// `leg_fails`). A far leg brakes to rest and takes the fallback's
/// rest-to-rest thrusts; a near one takes the look-ahead search's thrusts up
/// to the target (see `lookahead_result`), or, with no next point, the
/// search's for the target alone.
#[verifier::opaque]
pub open spec fn leg_result(m: Seq<MemoModel>, p: (i32, i32), v: (i32, i32), target: (i32, i32), next: Option<(i32, i32)>) -> (
    Option<(Seq<(i32, i32)>, (i32, i32))>,
    Seq<MemoModel>,
) {
    if !(abs_fits(target.0 - p.0) && abs_fits(target.1 - p.1)) {
        (None, m)
    } else if chebyshev(p, target) > 1000 {
        if far_leg_fails(p, v, target) {
            (None, m)
        } else {
            let r = stop_rest(pt(p), pt(v)).unwrap();
            (Some((brake_route(pt(p), pt(v)).unwrap() + fallback_route((r.0 as i32, r.1 as i32), target), (0i32, 0i32))), m)
        }
    } else {
        match next {
            Some(e) => if !(fits(e.0 - p.0) && fits(e.1 - p.1)) {
                (None, m)
            } else {
                let (res, m2) = lookahead_result(m, p, v, target, e);
                (
                    match res {
                        Ok((a, _, w)) => Some((a, w)),
                        Err(_) => None,
                    },
                    m2,
                )
            },
            None => (
                match impl_result(p, v, target, target, true) {
                    Ok((a, _, w)) => Some((a, w)),
                    Err(_) => None,
                },
                m,
            ),
        }
    }
}

/// The thrusts of one leg from `curpt` with velocity `curv` to `target`
/// (looking ahead to `next` when given), with the velocity on arrival: far
/// targets (more than 1000 away) are reached by stopping and the rest-to-rest
/// fallback, near ones by the look-ahead search. `None` when a step would
/// leave `i32` or a search gives up.
fn leg(
    curpt: (i32, i32),
    curv: (i32, i32),
    target: (i32, i32),
    next: Option<(i32, i32)>,
    memo: &mut Vec<MemoEntry>,
) -> (r: Option<(Vec<(i32, i32)>, (i32, i32))>)
    requires
        curpt != target,
        memo_ok(old(memo)@),
    ensures
        memo_ok(final(memo)@),
        r matches Some((a, w)) ==> thrusts_ok(a@) && run(pt(curpt), pt(curv), a@) == (pt(target), pt(w)),
        r is None ==> leg_fails(curpt, curv, target, next),
        match leg_result(memo_view(old(memo)@), curpt, curv, target, next).0 {
            Some((a, w)) => r matches Some((x, y)) && x@ == a && y == w,
            None => r is None,
        },
        memo_view(final(memo)@) == leg_result(memo_view(old(memo)@), curpt, curv, target, next).1,
{
    proof {
        reveal(leg_result);
    }
    let dx = target.0 as i64 - curpt.0 as i64;
    let dy = target.1 as i64 - curpt.1 as i64;
    if dx < -(i32::MAX as i64) || dx > i32::MAX as i64 || dy < -(i32::MAX as i64) || dy > i32::MAX as i64 {
        return None;
    }
    if surrogate_cost(curpt, target) > 1000 {
        let (stop, rest) = match stop_particle(curpt, curv) {
            Some(x) => x,
            None => {
                return None;
            },
        };
        let jump = match solve_fallback_checked(rest, target) {
            Some(j) => j,
            None => {
                return None;
            },
        };
        proof {
            let n = jump.len() as int;
            assert(jump@ =~= fallback_route(rest, target)) by {
                assert forall|k: int| 0 <= k < n implies jump@[k] == #[trigger] fallback_route(rest, target)[k] by {
                    assert(xs(jump@)[k] == jump@[k].0);
                    assert(ys(jump@)[k] == jump@[k].1);
                }
            }
        }
        match run_exec(rest, (0, 0), &jump) {
            Some((q, w)) => {
                if q.0 != target.0 || q.1 != target.1 || w.0 != 0 || w.1 != 0 {
                    return None;
                }
            },
            None => {
                return None;
            },
        }
        let mut ok = true;
        let mut i: usize = 0;
        while i < jump.len()
            invariant
                i <= jump.len(),
                ok ==> forall|k: int| 0 <= k < i ==> -1 <= (#[trigger] jump@[k]).0 <= 1 && -1 <= jump@[k].1 <= 1,
                !ok ==> !thrusts_ok(jump@),
            decreases jump.len() - i,
        {
            if jump[i].0 < -1 || jump[i].0 > 1 || jump[i].1 < -1 || jump[i].1 > 1 {
                ok = false;
                assert(!(-1 <= jump@[i as int].0 <= 1 && -1 <= jump@[i as int].1 <= 1));
            }
            i = i + 1;
        }
        if !ok {
            return None;
        }
        let ghost sa = stop@;
        let ghost ja = jump@;
        let mut all = stop;
        let mut tail = jump;
        all.append(&mut tail);
        proof {
            assert(all@ =~= sa + ja);
            lemma_run_concat(pt(curpt), pt(curv), sa, ja);
            assert forall|k: int| 0 <= k < all@.len() implies -1 <= (#[trigger] all@[k]).0 <= 1 && -1 <= all@[k].1
                <= 1 by {
                if k < sa.len() {
                    assert(all@[k] == sa[k]);
                } else {
                    assert(all@[k] == ja[k - sa.len()]);
                }
            }
        }
        Some((all, (0, 0)))
    } else {
        let res = match next {
            Some(end) => {
                let ex = end.0 as i64 - curpt.0 as i64;
                let ey = end.1 as i64 - curpt.1 as i64;
                if ex < i32::MIN as i64 || ex > i32::MAX as i64 || ey < i32::MIN as i64 || ey > i32::MAX as i64 {
                    return None;
                }
                solve_lookahead(curpt, curv, target, end, memo)
            },
            None => solve_lookahead_impl(curpt, curv, target, target, true),
        };
        match res {
            Ok((a, _, w)) => Some((a, w)),
            Err(_) => None,
        }
    }
}

/// Where `solve` stands after handling the first `i` points but the last:
/// position, velocity, remembered searches and thrusts so far; `None` once a
/// leg has failed. A point equal to the next one is passed over, a point
/// where the ship already is takes no thrusts, and any other is reached by
/// its leg looking ahead to the next point (see `leg_result`).
#[verifier::opaque]
pub open spec fn route_state(points: Seq<(i32, i32)>, i: int) -> Option<
    ((i32, i32), (i32, i32), Seq<MemoModel>, Seq<(i32, i32)>),
>
    decreases i,
{
    if i <= 0 {
        Some(((0i32, 0i32), (0i32, 0i32), Seq::empty(), Seq::empty()))
    } else {
        match route_state(points, i - 1) {
            None => None,
            Some((p, v, m, acc)) => {
                let mid = points[i - 1];
                let end = points[i];
                if mid == end || p == mid {
                    Some((p, v, m, acc))
                } else {
                    let (res, m2) = leg_result(m, p, v, mid, Some(end));
                    match res {
                        Some((a, w)) => Some((mid, w, m2, acc + a)),
                        None => None,
                    }
                }
            },
        }
    }
}

proof fn lemma_route_state_step(points: Seq<(i32, i32)>, i: int)
    requires
        0 <= i,
    ensures
        route_state(points, i + 1) == match route_state(points, i) {
            None => None,
            Some((p, v, m, acc)) => {
                let mid = points[i];
                let end = points[i + 1];
                if mid == end || p == mid {
                    Some((p, v, m, acc))
                } else {
                    let (res, m2) = leg_result(m, p, v, mid, Some(end));
                    match res {
                        Some((a, w)) => Some((mid, w, m2, acc + a)),
                        None => None,
                    }
                }
            },
        },
{
    reveal(route_state);
}

proof fn lemma_route_state_start(points: Seq<(i32, i32)>)
    ensures
        route_state(points, 0) == Some(((0i32, 0i32), (0i32, 0i32), Seq::<MemoModel>::empty(), Seq::<(i32, i32)>::empty())),
{
    reveal(route_state);
}

/// Once a leg fails, `solve` stays failed.
proof fn lemma_route_state_none(points: Seq<(i32, i32)>, i: int, j: int)
    requires
        0 <= i <= j,
        route_state(points, i) is None,
    ensures
        route_state(points, j) is None,
    decreases j - i,
{
    if j > i {
        lemma_route_state_none(points, i, j - 1);
        lemma_route_state_step(points, j - 1);
    }
}

/// The thrusts of the route `solve` flies through `points`: after the
/// points but the last (see `route_state`), the leg to the last point
/// (with nothing to look ahead to), unless the ship is already there.
/// `None` when a leg fails.
pub open spec fn la_route(points: Seq<(i32, i32)>) -> Option<Seq<(i32, i32)>> {
    match route_state(points, points.len() - 1) {
        None => None,
        Some((p, v, m, acc)) => {
            let fin = points[points.len() - 1];
            if p == fin {
                Some(acc)
            } else {
                match leg_result(m, p, v, fin, None).0 {
                    Some((a, _)) => Some(acc + a),
                    None => None,
                }
            }
        },
    }
}

/// The keypad string of a route from rest at the origin through `points` in
/// order: each point is reached by a leg (see `leg`) looking ahead to the
/// next point; a point equal to the next one is passed over, and a point
/// where the ship already is takes no thrusts. `None` when a leg cannot be
/// found.
pub fn solve(points: Vec<(i32, i32)>) -> (r: Option<String>)
    requires
        points.len() >= 1,
    ensures
        r matches Some(s) ==> {
            &&& forall|i: int| 0 <= i < s@.len() ==> '1' <= #[trigger] s@[i] <= '9'
            &&& exists|a: Seq<(i32, i32)>| thrusts_ok(a) && s@ == keys_of(a) && visits_in_order(a, points@)
        },
        match la_route(points@) {
            Some(a) => r matches Some(s) && s@ == keys_of(a),
            None => r is None,
        },
{
    let mut buffer = String::new();
    let mut curpt: (i32, i32) = (0, 0);
    let mut curv: (i32, i32) = (0, 0);
    let mut memo: Vec<MemoEntry> = Vec::new();
    let ghost mut acc: Seq<(i32, i32)> = Seq::empty();
    let ghost mut ts: Seq<int> = Seq::empty();
    let n = points.len();
    let mut i: usize = 0;
    proof {
        lemma_route_state_start(points@);
        assert(memo_view(memo@) =~= Seq::<MemoModel>::empty());
    }
    while i < n - 1
        invariant
            n == points.len(),
            n >= 1,
            i <= n - 1,
            buffer@ == keys_of(acc),
            thrusts_ok(acc),
            run((0, 0), (0, 0), acc) == (pt(curpt), pt(curv)),
            memo_ok(memo@),
            ts.len() <= i,
            visit_prefix(acc, points@, ts),
            forall|j: int| ts.len() <= j < i ==> #[trigger] points@[j] == points@[i as int],
            route_state(points@, i as int) == Some((curpt, curv, memo_view(memo@), acc)),
        decreases n - 1 - i,
    {
        proof {
            lemma_route_state_step(points@, i as int);
        }
        let mid = points[i];
        let end = points[i + 1];
        if mid.0 == end.0 && mid.1 == end.1 {
            i = i + 1;
            continue;
        }
        if curpt.0 == mid.0 && curpt.1 == mid.1 {
            proof {
                assert(acc + Seq::<(i32, i32)>::empty() =~= acc);
                lemma_extend(acc, Seq::empty(), points@, ts, i + 1, mid);
                ts = ts + Seq::new((i + 1 - ts.len()) as nat, |j: int| acc.len() as int);
            }
            i = i + 1;
            continue;
        }
        let (a, w) = match leg(curpt, curv, mid, Some(end), &mut memo) {
            Some(x) => x,
            None => {
                proof {
                    lemma_route_state_none(points@, i + 1, n - 1);
                }
                return None;
            },
        };
        proof {
            lemma_run_concat((0, 0), (0, 0), acc, a@);
            lemma_extend(acc, a@, points@, ts, i + 1, mid);
            ts = ts + Seq::new((i + 1 - ts.len()) as nat, |j: int| (acc + a@).len() as int);
            assert(keys_of(acc + a@) =~= keys_of(acc) + keys_of(a@));
            assert forall|k: int| 0 <= k < (acc + a@).len() implies -1 <= (#[trigger] (acc + a@)[k]).0 <= 1 && -1
                <= (acc + a@)[k].1 <= 1 by {
                if k >= acc.len() {
                    assert((acc + a@)[k] == a@[k - acc.len()]);
                }
            }
            acc = acc + a@;
        }
        append_keys(&mut buffer, a);
        curpt = mid;
        curv = w;
        i = i + 1;
    }
    let fin = points[n - 1];
    if curpt.0 == fin.0 && curpt.1 == fin.1 {
        proof {
            assert(acc + Seq::<(i32, i32)>::empty() =~= acc);
            lemma_extend(acc, Seq::empty(), points@, ts, n as int, fin);
            ts = ts + Seq::new((n - ts.len()) as nat, |j: int| acc.len() as int);
        }
    } else {
        let (a, w) = match leg(curpt, curv, fin, None, &mut memo) {
            Some(x) => x,
            None => {
                return None;
            },
        };
        proof {
            lemma_run_concat((0, 0), (0, 0), acc, a@);
            lemma_extend(acc, a@, points@, ts, n as int, fin);
            ts = ts + Seq::new((n - ts.len()) as nat, |j: int| (acc + a@).len() as int);
            assert(keys_of(acc + a@) =~= keys_of(acc) + keys_of(a@));
            assert forall|k: int| 0 <= k < (acc + a@).len() implies -1 <= (#[trigger] (acc + a@)[k]).0 <= 1 && -1
                <= (acc + a@)[k].1 <= 1 by {
                if k >= acc.len() {
                    assert((acc + a@)[k] == a@[k - acc.len()]);
                }
            }
            acc = acc + a@;
        }
        append_keys(&mut buffer, a);
    }
    proof {
        assert(visit_prefix(acc, points@, ts) && ts.len() == points@.len());
        assert forall|k: int| 0 <= k < buffer@.len() implies '1' <= #[trigger] buffer@[k] <= '9' by {
            assert(-1 <= acc[k].0 <= 1 && -1 <= acc[k].1 <= 1);
        }
    }
    Some(buffer)
}

} // verus!
