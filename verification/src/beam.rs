//! One-axis moves looked up in a table of minimum step counts.
//!
//! The table `min_steps[v0 - MIN_V][v - MIN_V][pos - MIN_D]` holds the least
//! number of steps that take a ship along one axis from `0` with velocity `v0`
//! to `pos` with velocity `v` (or `INF`).
use vstd::prelude::*;

use std::collections::VecDeque;

verus! {

/// The slowest velocity in the table.
pub const MIN_V: i32 = -100;

/// The fastest velocity in the table.
pub const MAX_V: i32 = 100;

/// The number of velocities in the table.
pub const NUM_V: usize = 201;

/// The least displacement in the table.
pub const MIN_D: i32 = -10000;

/// The greatest displacement in the table.
pub const MAX_D: i32 = 10000;

/// The number of displacements in the table.
pub const NUM_D: usize = 20001;

/// The step count of what cannot be reached.
pub const INF: i32 = 1000000000;

/// How many moves a query returns at most.
pub const GET_MOVES_MAX_RESULTS: usize = 10;

/// How many states the beam keeps.
pub const BEAM_WIDTH: usize = 1000;

/// A way to cover a displacement: its number of steps and the velocity at the
/// end.
#[derive(Debug, Clone, Copy, PartialEq, Eq, Structural)]
pub struct MoveInfo {
    pub steps: i32,
    pub terminal_velocity: i32,
}

/// The table as nested sequences.
pub open spec fn table(t: &Vec<Vec<Vec<i32>>>) -> Seq<Seq<Seq<i32>>> {
    t@.map_values(|a: Vec<Vec<i32>>| a@.map_values(|b: Vec<i32>| b@))
}

/// The table has `NUM_V` by `NUM_V` by `NUM_D` entries.
pub open spec fn table_ok(m: Seq<Seq<Seq<i32>>>) -> bool {
    &&& m.len() == NUM_V
    &&& forall|i: int| 0 <= i < NUM_V ==> (#[trigger] m[i]).len() == NUM_V
    &&& forall|i: int, j: int|
        0 <= i < NUM_V && 0 <= j < NUM_V ==> (#[trigger] m[i][j]).len() == NUM_D
}

/// `v` is a velocity of the table.
pub open spec fn in_v(v: int) -> bool {
    MIN_V <= v <= MAX_V
}

/// `d` is a displacement of the table.
pub open spec fn in_d(d: int) -> bool {
    MIN_D <= d <= MAX_D
}

/// The entry for start velocity `v0`, end velocity `v`, displacement `d`.
pub open spec fn lookup(m: Seq<Seq<Seq<i32>>>, v0: int, v: int, d: int) -> int {
    m[v0 - MIN_V][v - MIN_V][d - MIN_D] as int
}

/// From velocity `v` with displacement `d` left, some `k` thrusts (each `-1`,
/// `0` or `1`, staying in the table) lead to an entry to end velocity `ve`
/// equal to `target`.
pub open spec fn path_ok(m: Seq<Seq<Seq<i32>>>, v: int, d: int, ve: int, target: int, k: nat) -> bool
    decreases k,
{
    if k == 0 {
        lookup(m, v, ve, d) == target
    } else {
        ||| (in_v(v - 1) && in_d(d - (v - 1)) && path_ok(
            m,
            v - 1,
            d - (v - 1),
            ve,
            target,
            (k - 1) as nat,
        ))
        ||| (in_v(v) && in_d(d - v) && path_ok(m, v, d - v, ve, target, (k - 1) as nat))
        ||| (in_v(v + 1) && in_d(d - (v + 1)) && path_ok(
            m,
            v + 1,
            d - (v + 1),
            ve,
            target,
            (k - 1) as nat,
        ))
    }
}

/// `dx` can be covered from velocity `vs` to velocity `ve` in exactly `steps`
/// steps, as far as the table and up to four explicit thrusts before it tell.
pub open spec fn reaches(m: Seq<Seq<Seq<i32>>>, vs: int, ve: int, dx: int, steps: int) -> bool {
    ||| lookup(m, vs, ve, dx) == steps
    ||| (steps >= 1 && path_ok(m, vs, dx, ve, steps - 1, 1))
    ||| (steps >= 2 && path_ok(m, vs, dx, ve, steps - 2, 2))
    ||| (steps >= 3 && path_ok(m, vs, dx, ve, steps - 3, 3))
    ||| (steps >= 4 && path_ok(m, vs, dx, ve, steps - 4, 4))
}

/// The thrust `b` from velocity `v` with displacement `d` left stays in the
/// table and continues to a path of `k` more thrusts.
pub open spec fn thrust_ok(
    m: Seq<Seq<Seq<i32>>>,
    v: int,
    d: int,
    ve: int,
    target: int,
    k: nat,
    b: int,
) -> bool {
    in_v(v + b) && in_d(d - (v + b)) && path_ok(m, v + b, d - (v + b), ve, target, k)
}

/// `j` explicit thrusts, then the table, take `vs` to `ve` over `dx` in
/// exactly `steps` steps.
pub open spec fn reach_k(m: Seq<Seq<Seq<i32>>>, vs: int, ve: int, dx: int, steps: int, j: int) -> bool {
    steps >= j && path_ok(m, vs, dx, ve, steps - j, j as nat)
}

fn table_entry(t: &Vec<Vec<Vec<i32>>>, v0: i32, v: i32, d: i32) -> (r: i32)
    requires
        table_ok(table(t)),
        in_v(v0 as int),
        in_v(v as int),
        in_d(d as int),
    ensures
        r == lookup(table(t), v0 as int, v as int, d as int),
{
    let i = (v0 - MIN_V) as usize;
    let j = (v - MIN_V) as usize;
    let k = (d - MIN_D) as usize;
    assert(table(t)[i as int] == t@[i as int]@.map_values(|b: Vec<i32>| b@));
    assert(t@[i as int]@[j as int]@ == table(t)[i as int][j as int]);
    t[i][j][k]
}

fn path_exists(t: &Vec<Vec<Vec<i32>>>, v: i32, d: i32, ve: i32, target: i32, k: u32) -> (r: bool)
    requires
        table_ok(table(t)),
        in_v(v as int),
        in_d(d as int),
        in_v(ve as int),
    ensures
        r == path_ok(table(t), v as int, d as int, ve as int, target as int, k as nat),
    decreases k,
{
    if k == 0 {
        return table_entry(t, v, ve, d) == target;
    }
    let mut a: i32 = -1;
    while a <= 1
        invariant
            -1 <= a <= 2,
            k > 0,
            table_ok(table(t)),
            in_v(v as int),
            in_d(d as int),
            in_v(ve as int),
            forall|b: int|
                -1 <= b < a ==> !#[trigger] thrust_ok(
                    table(t),
                    v as int,
                    d as int,
                    ve as int,
                    target as int,
                    (k - 1) as nat,
                    b,
                ),
        decreases 2 - a,
    {
        let nv = v + a;
        let nd = d - nv;
        if MIN_V <= nv && nv <= MAX_V && MIN_D <= nd && nd <= MAX_D {
            if path_exists(t, nv, nd, ve, target, k - 1) {
                assert(thrust_ok(table(t), v as int, d as int, ve as int, target as int, (k - 1) as nat, a as int));
                return true;
            }
        }
        assert(!thrust_ok(table(t), v as int, d as int, ve as int, target as int, (k - 1) as nat, a as int));
        a = a + 1;
    }
    assert(!thrust_ok(table(t), v as int, d as int, ve as int, target as int, (k - 1) as nat, -1));
    assert(!thrust_ok(table(t), v as int, d as int, ve as int, target as int, (k - 1) as nat, 0));
    assert(!thrust_ok(table(t), v as int, d as int, ve as int, target as int, (k - 1) as nat, 1));
    false
}

/// Whether `dx` can be covered from velocity `vs` to velocity `ve` in exactly
/// `steps` steps (see `reaches`).
pub fn can_reach(vs: i32, ve: i32, dx: i32, steps: i32, min_steps: &Vec<Vec<Vec<i32>>>) -> (r:
    bool)
    requires
        table_ok(table(min_steps)),
        in_v(vs as int),
        in_v(ve as int),
        in_d(dx as int),
    ensures
        r == reaches(table(min_steps), vs as int, ve as int, dx as int, steps as int),
{
    if table_entry(min_steps, vs, ve, dx) == steps {
        return true;
    }
    let mut k: i32 = 1;
    while k <= 4
        invariant
            1 <= k <= 5,
            table_ok(table(min_steps)),
            in_v(vs as int),
            in_v(ve as int),
            in_d(dx as int),
            lookup(table(min_steps), vs as int, ve as int, dx as int) != steps,
            forall|j: int|
                1 <= j < k ==> !#[trigger] reach_k(
                    table(min_steps),
                    vs as int,
                    ve as int,
                    dx as int,
                    steps as int,
                    j,
                ),
        decreases 5 - k,
    {
        if steps >= k {
            if path_exists(min_steps, vs, dx, ve, steps - k, k as u32) {
                return true;
            }
        }
        assert(!reach_k(table(min_steps), vs as int, ve as int, dx as int, steps as int, k as int));
        k = k + 1;
    }
    assert(!reach_k(table(min_steps), vs as int, ve as int, dx as int, steps as int, 1));
    assert(!reach_k(table(min_steps), vs as int, ve as int, dx as int, steps as int, 2));
    assert(!reach_k(table(min_steps), vs as int, ve as int, dx as int, steps as int, 3));
    assert(!reach_k(table(min_steps), vs as int, ve as int, dx as int, steps as int, 4));
    false
}

/// The `i`-th end velocity in order of speed, slower first, negative first:
/// `0, -1, 1, -2, 2, ...`.
pub open spec fn by_speed(i: int) -> int {
    if i % 2 == 1 {
        -((i + 1) / 2)
    } else {
        i / 2
    }
}

/// The moves of exactly `steps` steps over `dx` from velocity `v`, for the
/// first `n` end velocities in order of speed.
pub open spec fn moves_with_steps(m: Seq<Seq<Seq<i32>>>, v: int, dx: int, steps: i32, n: nat) -> Seq<
    MoveInfo,
>
    decreases n,
{
    if n == 0 {
        Seq::empty()
    } else {
        let prev = moves_with_steps(m, v, dx, steps, (n - 1) as nat);
        let ve = by_speed(n - 1);
        if reaches(m, v, ve, dx, steps as int) {
            prev.push(MoveInfo { steps, terminal_velocity: ve as i32 })
        } else {
            prev
        }
    }
}

proof fn lemma_take_more<A>(s: Seq<A>, x: A, k: int)
    requires
        0 <= k <= s.len(),
    ensures
        s.push(x).take(k) == s.take(k),
{
    assert(s.push(x).take(k) =~= s.take(k));
}

/// The end velocities with which `dx` can be covered from velocity `v` in
/// exactly `steps` steps (see `reaches`), slowest first, at most
/// `max_results` of them.
pub fn get_moves_with_steps(
    v: i32,
    dx: i32,
    steps: i32,
    max_results: usize,
    min_steps: &Vec<Vec<Vec<i32>>>,
) -> (r: Vec<MoveInfo>)
    requires
        table_ok(table(min_steps)),
        in_v(v as int),
        in_d(dx as int),
    ensures
        r@ == moves_with_steps(table(min_steps), v as int, dx as int, steps, NUM_V as nat).take(
            imin_len(max_results as int, moves_with_steps(table(min_steps), v as int, dx as int, steps, NUM_V as nat).len() as int),
        ),
{
    let ghost m = table(min_steps);
    let mut r: Vec<MoveInfo> = Vec::new();
    let mut i: usize = 0;
    while i < NUM_V
        invariant
            i <= NUM_V,
            m == table(min_steps),
            table_ok(m),
            in_v(v as int),
            in_d(dx as int),
            r@ == moves_with_steps(m, v as int, dx as int, steps, i as nat).take(
                imin_len(max_results as int, moves_with_steps(m, v as int, dx as int, steps, i as nat).len() as int),
            ),
        decreases NUM_V - i,
    {
        let ve: i32 = if i % 2 == 1 {
            -(((i + 1) / 2) as i32)
        } else {
            (i / 2) as i32
        };
        assert(ve == by_speed(i as int));
        let ghost prev = moves_with_steps(m, v as int, dx as int, steps, i as nat);
        let ok = can_reach(v, ve, dx, steps, min_steps);
        if ok {
            let mi = MoveInfo { steps, terminal_velocity: ve };
            if r.len() < max_results {
                r.push(mi);
                assert(prev.push(mi).take(r.len() as int) =~= prev.take(r.len() - 1).push(mi));
            } else {
                proof {
                    lemma_take_more(prev, mi, max_results as int);
                }
            }
        }
        i = i + 1;
    }
    r
}

proof fn lemma_moves_with_steps_members(m: Seq<Seq<Seq<i32>>>, v: int, dx: int, steps: i32, n: nat, ve: int)
    requires
        n <= NUM_V,
    ensures
        (exists|i: int|
            0 <= i < moves_with_steps(m, v, dx, steps, n).len() && (#[trigger] moves_with_steps(
                m,
                v,
                dx,
                steps,
                n,
            )[i]).terminal_velocity == ve) <==> (exists|k: int|
            0 <= k < n && #[trigger] by_speed(k) == ve && reaches(m, v, ve, dx, steps as int)),
        forall|i: int|
            0 <= i < moves_with_steps(m, v, dx, steps, n).len() ==> (#[trigger] moves_with_steps(
                m,
                v,
                dx,
                steps,
                n,
            )[i]).steps == steps,
    decreases n,
{
    if n > 0 {
        lemma_moves_with_steps_members(m, v, dx, steps, (n - 1) as nat, ve);
        let prev = moves_with_steps(m, v, dx, steps, (n - 1) as nat);
        let cur = moves_with_steps(m, v, dx, steps, n);
        let w = by_speed(n - 1);
        assert(-100 <= w <= 100);
        if exists|i: int| 0 <= i < cur.len() && (#[trigger] cur[i]).terminal_velocity == ve {
            let i = choose|i: int| 0 <= i < cur.len() && (#[trigger] cur[i]).terminal_velocity == ve;
            if i < prev.len() {
                assert(prev[i] == cur[i]);
            } else {
                assert(w == ve);
            }
        }
        if exists|k: int| 0 <= k < n && #[trigger] by_speed(k) == ve && reaches(m, v, ve, dx, steps as int) {
            let k = choose|k: int| 0 <= k < n && #[trigger] by_speed(k) == ve && reaches(m, v, ve, dx, steps as int);
            if k < n - 1 {
                let i = choose|i: int| 0 <= i < prev.len() && (#[trigger] prev[i]).terminal_velocity == ve;
                assert(cur[i] == prev[i]);
            } else {
                assert(cur[cur.len() - 1].terminal_velocity == ve);
            }
        }
    }
}

/// With room for every velocity, `get_moves_with_steps` lists exactly the end
/// velocities that `can_reach` accepts, each with the asked number of steps.
pub proof fn law_moves_with_steps_reach(m: Seq<Seq<Seq<i32>>>, v: int, dx: int, steps: i32, ve: int)
    requires
        in_v(ve),
    ensures
        (exists|i: int|
            0 <= i < moves_with_steps(m, v, dx, steps, NUM_V as nat).len() && (
            #[trigger] moves_with_steps(m, v, dx, steps, NUM_V as nat)[i]).terminal_velocity
                == ve) <==> reaches(m, v, ve, dx, steps as int),
        moves_with_steps(m, v, dx, steps, NUM_V as nat).len() <= NUM_V,
        forall|i: int|
            0 <= i < moves_with_steps(m, v, dx, steps, NUM_V as nat).len() ==> (
            #[trigger] moves_with_steps(m, v, dx, steps, NUM_V as nat)[i]).steps == steps,
{
    lemma_moves_with_steps_members(m, v, dx, steps, NUM_V as nat, ve);
    lemma_moves_with_steps_len(m, v, dx, steps, NUM_V as nat);
    let k = if ve > 0 {
        2 * ve
    } else if ve < 0 {
        -2 * ve - 1
    } else {
        0
    };
    assert(by_speed(k) == ve);
}

proof fn lemma_moves_with_steps_len(m: Seq<Seq<Seq<i32>>>, v: int, dx: int, steps: i32, n: nat)
    ensures
        moves_with_steps(m, v, dx, steps, n).len() <= n,
    decreases n,
{
    if n > 0 {
        lemma_moves_with_steps_len(m, v, dx, steps, (n - 1) as nat);
    }
}

/// The smaller of `a` and `b`.
pub open spec fn imin_len(a: int, b: int) -> int {
    if a <= b {
        a
    } else {
        b
    }
}

/// The order of moves of `get_moves`: fewer steps first, then slower end
/// velocity, then negative first.
pub open spec fn move_before(a: MoveInfo, b: MoveInfo) -> bool {
    let (sa, va) = (a.steps as int, a.terminal_velocity as int);
    let (sb, vb) = (b.steps as int, b.terminal_velocity as int);
    sa < sb || (sa == sb && (iabs(va) < iabs(vb) || (iabs(va) == iabs(vb) && va < vb)))
}

/// The absolute value of `x`.
pub open spec fn iabs(x: int) -> int {
    if x < 0 {
        -x
    } else {
        x
    }
}

/// The table reaches `dx` from velocity `v` to velocity `ve` in some number
/// of steps, which is the move's.
pub open spec fn is_move(m: Seq<Seq<Seq<i32>>>, v: int, dx: int, mi: MoveInfo) -> bool {
    &&& in_v(mi.terminal_velocity as int)
    &&& lookup(m, v, mi.terminal_velocity as int, dx) != INF
    &&& mi.steps == lookup(m, v, mi.terminal_velocity as int, dx)
}

/// The moves of `r` are in strictly increasing order.
pub open spec fn strictly_ordered(r: Seq<MoveInfo>) -> bool {
    forall|i: int, j: int| 0 <= i < j < r.len() ==> move_before(#[trigger] r[i], #[trigger] r[j])
}

/// `r` holds every move of the table before its last one.
pub open spec fn holds_moves_up_to(m: Seq<Seq<Seq<i32>>>, v: int, dx: int, r: Seq<MoveInfo>) -> bool {
    forall|ve: int|
        #![trigger lookup(m, v, ve, dx)]
        in_v(ve) && lookup(m, v, ve, dx) != INF && r.len() > 0 && !move_before(
            r.last(),
            MoveInfo { steps: lookup(m, v, ve, dx) as i32, terminal_velocity: ve as i32 },
        ) ==> exists|i: int| 0 <= i < r.len() && (#[trigger] r[i]).terminal_velocity == ve
}

/// The moves over `dx` from velocity `v` that the table knows, fewest steps
/// first (see `move_before`), at most `max_results` of them; none when `dx`
/// is outside the table.
pub fn get_moves(v: i32, dx: i32, max_results: usize, min_steps: &Vec<Vec<Vec<i32>>>) -> (r: Vec<
    MoveInfo,
>)
    requires
        table_ok(table(min_steps)),
        in_v(v as int),
    ensures
        !in_d(dx as int) ==> r.len() == 0,
        in_d(dx as int) ==> {
            &&& r.len() <= max_results
            &&& forall|i: int| 0 <= i < r.len() ==> is_move(table(min_steps), v as int, dx as int, #[trigger] r@[i])
            &&& strictly_ordered(r@)
            &&& holds_moves_up_to(table(min_steps), v as int, dx as int, r@)
            &&& forall|ve: int|
                #![trigger lookup(table(min_steps), v as int, ve, dx as int)]
                in_v(ve) && lookup(table(min_steps), v as int, ve, dx as int) != INF && (forall|i: int|
                    0 <= i < r.len() ==> (#[trigger] r@[i]).terminal_velocity != ve) ==> r.len() == max_results
                    && (r.len() > 0 ==> move_before(
                    r@.last(),
                    MoveInfo {
                        steps: lookup(table(min_steps), v as int, ve, dx as int) as i32,
                        terminal_velocity: ve as i32,
                    },
                ))
        },
{
    let ghost m = table(min_steps);
    let mut r: Vec<MoveInfo> = Vec::new();
    if dx < MIN_D || dx > MAX_D {
        return r;
    }
    let mut done = false;
    while r.len() < max_results && !done
        invariant
            m == table(min_steps),
            table_ok(m),
            in_v(v as int),
            in_d(dx as int),
            r.len() <= max_results,
            forall|i: int| 0 <= i < r.len() ==> is_move(m, v as int, dx as int, #[trigger] r@[i]),
            strictly_ordered(r@),
            holds_moves_up_to(m, v as int, dx as int, r@),
            done ==> forall|ve: int|
                #![trigger lookup(m, v as int, ve, dx as int)]
                in_v(ve) && lookup(m, v as int, ve, dx as int) != INF ==> r.len() > 0 && !move_before(
                    r@.last(),
                    MoveInfo { steps: lookup(m, v as int, ve, dx as int) as i32, terminal_velocity: ve as i32 },
                ),
        decreases max_results - r.len(), if done { 0int } else { 1int },
    {
        // the least move after the last one taken
        let mut best: Option<MoveInfo> = None;
        let mut ve: i32 = MIN_V;
        while ve <= MAX_V
            invariant
                m == table(min_steps),
                table_ok(m),
                in_v(v as int),
                in_d(dx as int),
                MIN_V <= ve <= MAX_V + 1,
                best matches Some(b) ==> (is_move(m, v as int, dx as int, b) && b.terminal_velocity < ve
                    && (r.len() > 0 ==> move_before(r@.last(), b))),
                forall|w: int|
                    #![trigger lookup(m, v as int, w, dx as int)]
                    MIN_V <= w < ve && lookup(m, v as int, w, dx as int) != INF && (r.len() == 0
                        || move_before(
                        r@.last(),
                        MoveInfo { steps: lookup(m, v as int, w, dx as int) as i32, terminal_velocity: w as i32 },
                    )) ==> (best matches Some(b) && (b.terminal_velocity == w || move_before(
                        b,
                        MoveInfo { steps: lookup(m, v as int, w, dx as int) as i32, terminal_velocity: w as i32 },
                    ))),
            decreases MAX_V + 1 - ve,
        {
            let st = table_entry(min_steps, v, ve, dx);
            if st != INF {
                let cand = MoveInfo { steps: st, terminal_velocity: ve };
                let after_last = r.len() == 0 || before(r[r.len() - 1], cand);
                if after_last {
                    let better = match best {
                        None => true,
                        Some(b) => before(cand, b),
                    };
                    if better {
                        best = Some(cand);
                    }
                }
            }
            ve = ve + 1;
        }
        match best {
            None => {
                done = true;
            },
            Some(b) => {
                let ghost old_r = r@;
                r.push(b);
                proof {
                    assert(r@.last() == b);
                    assert forall|w: int|
                        #![trigger lookup(m, v as int, w, dx as int)]
                        in_v(w) && lookup(m, v as int, w, dx as int) != INF && !move_before(
                            b,
                            MoveInfo { steps: lookup(m, v as int, w, dx as int) as i32, terminal_velocity: w as i32 },
                        ) implies exists|i: int| 0 <= i < r.len() && (#[trigger] r@[i]).terminal_velocity == w by {
                        let mw = MoveInfo { steps: lookup(m, v as int, w, dx as int) as i32, terminal_velocity: w as i32 };
                        if old_r.len() > 0 && !move_before(old_r.last(), mw) {
                            let i = choose|i: int| 0 <= i < old_r.len() && (#[trigger] old_r[i]).terminal_velocity == w;
                            assert(r@[i] == old_r[i]);
                        } else {
                            assert(r@[r.len() - 1].terminal_velocity == w);
                        }
                    }
                }
            },
        }
    }
    proof {
        assert forall|w: int|
            #![trigger lookup(m, v as int, w, dx as int)]
            in_v(w) && lookup(m, v as int, w, dx as int) != INF && (forall|i: int|
                0 <= i < r.len() ==> (#[trigger] r@[i]).terminal_velocity != w) implies r.len() == max_results
                && (r.len() > 0 ==> move_before(
                r@.last(),
                MoveInfo { steps: lookup(m, v as int, w, dx as int) as i32, terminal_velocity: w as i32 },
            )) by {
            let mw = MoveInfo { steps: lookup(m, v as int, w, dx as int) as i32, terminal_velocity: w as i32 };
            if r.len() > 0 && !move_before(r@.last(), mw) {
                let i = choose|i: int| 0 <= i < r.len() && (#[trigger] r@[i]).terminal_velocity == w;
                assert(r@[i].terminal_velocity != w);
            }
            if done {
                assert(r.len() > 0 && !move_before(r@.last(), mw));
            }
        }
    }
    r
}

/// Whether `a` comes before `b` in the order of `get_moves`.
fn before(a: MoveInfo, b: MoveInfo) -> (r: bool)
    ensures
        r == move_before(a, b),
{
    let aa = if a.terminal_velocity < 0 {
        -(a.terminal_velocity as i64)
    } else {
        a.terminal_velocity as i64
    };
    let ab = if b.terminal_velocity < 0 {
        -(b.terminal_velocity as i64)
    } else {
        b.terminal_velocity as i64
    };
    a.steps < b.steps || (a.steps == b.steps && (aa < ab || (aa == ab && a.terminal_velocity
        < b.terminal_velocity)))
}

/// The thrust `a` from velocity `v` with `x` left stays in the table and can
/// still end with velocity `ve` in `rem` more steps.
pub open spec fn thrust_keeps_reach(m: Seq<Seq<Seq<i32>>>, v: int, x: int, ve: int, rem: int, a: int) -> bool {
    in_v(v + a) && in_d(x - (v + a)) && reaches(m, v + a, ve, x - (v + a), rem)
}

/// The first thrust of `-1`, `0`, `1` that keeps `ve` reachable.
pub open spec fn greedy_thrust(m: Seq<Seq<Seq<i32>>>, v: int, x: int, ve: int, rem: int) -> Option<int> {
    if thrust_keeps_reach(m, v, x, ve, rem, -1) {
        Some(-1)
    } else if thrust_keeps_reach(m, v, x, ve, rem, 0) {
        Some(0)
    } else if thrust_keeps_reach(m, v, x, ve, rem, 1) {
        Some(1)
    } else {
        None
    }
}

/// The thrusts chosen greedily from step `i` of `steps`, from velocity `v`
/// with `x` left: at each step the first thrust that keeps `ve` reachable in
/// the steps left, none when there is no such thrust.
pub open spec fn greedy_steps(m: Seq<Seq<Seq<i32>>>, v: int, x: int, ve: int, steps: int, i: int) -> Seq<i32>
    decreases steps - i,
{
    if i >= steps {
        Seq::empty()
    } else {
        match greedy_thrust(m, v, x, ve, steps - i - 1) {
            Some(a) => seq![a as i32] + greedy_steps(m, v + a, x - (v + a), ve, steps, i + 1),
            None => greedy_steps(m, v, x, ve, steps, i + 1),
        }
    }
}

proof fn lemma_greedy_steps_thrusts(m: Seq<Seq<Seq<i32>>>, v: int, x: int, ve: int, steps: int, i: int)
    requires
        0 <= i,
    ensures
        greedy_steps(m, v, x, ve, steps, i).len() <= if steps > i {
            steps - i
        } else {
            0
        },
        forall|j: int|
            0 <= j < greedy_steps(m, v, x, ve, steps, i).len() ==> -1 <= #[trigger] greedy_steps(
                m,
                v,
                x,
                ve,
                steps,
                i,
            )[j] <= 1,
    decreases steps - i,
{
    if i < steps {
        match greedy_thrust(m, v, x, ve, steps - i - 1) {
            Some(a) => {
                lemma_greedy_steps_thrusts(m, v + a, x - (v + a), ve, steps, i + 1);
                let rest = greedy_steps(m, v + a, x - (v + a), ve, steps, i + 1);
                assert forall|j: int|
                    0 <= j < greedy_steps(m, v, x, ve, steps, i).len() implies -1
                    <= #[trigger] greedy_steps(m, v, x, ve, steps, i)[j] <= 1 by {
                    if j > 0 {
                        assert(greedy_steps(m, v, x, ve, steps, i)[j] == rest[j - 1]);
                    }
                }
            },
            None => {
                lemma_greedy_steps_thrusts(m, v, x, ve, steps, i + 1);
            },
        }
    }
}

/// The thrusts that cover `dx` from velocity `vs` to velocity `ve` in `steps`
/// steps, chosen greedily (see `greedy_steps`).
pub fn reconstruct_steps(
    dx: i32,
    vs: i32,
    ve: i32,
    steps: i32,
    min_steps: &Vec<Vec<Vec<i32>>>,
) -> (r: Vec<i32>)
    requires
        table_ok(table(min_steps)),
        in_v(ve as int),
        i32::MIN < vs - 1,
        vs + 1 <= i32::MAX,
        i32::MIN <= dx - vs - 1,
        dx - vs + 1 <= i32::MAX,
    ensures
        r@ == greedy_steps(table(min_steps), vs as int, dx as int, ve as int, steps as int, 0),
        r.len() <= if steps > 0 {
            steps as int
        } else {
            0
        },
        forall|j: int| 0 <= j < r.len() ==> -1 <= #[trigger] r@[j] <= 1,
{
    proof {
        lemma_greedy_steps_thrusts(table(min_steps), vs as int, dx as int, ve as int, steps as int, 0);
    }
    let ghost m = table(min_steps);
    let mut results: Vec<i32> = Vec::new();
    let mut v = vs;
    let mut x = dx;
    let mut i: i32 = 0;
    while i < steps
        invariant
            m == table(min_steps),
            table_ok(m),
            in_v(ve as int),
            0 <= i,
            i <= steps || steps < 0,
            (v == vs && x == dx) || (in_v(v as int) && in_d(x as int)),
            i32::MIN < vs - 1,
            vs + 1 <= i32::MAX,
            i32::MIN <= dx - vs - 1,
            dx - vs + 1 <= i32::MAX,
            results@ + greedy_steps(m, v as int, x as int, ve as int, steps as int, i as int)
                == greedy_steps(m, vs as int, dx as int, ve as int, steps as int, 0),
        decreases steps - i,
    {
        let ghost before = results@;
        let ghost gv = v as int;
        let ghost gx = x as int;
        let rem = steps - i - 1;
        let mut a: i32 = -1;
        let mut chosen = false;
        while a <= 1 && !chosen
            invariant
                m == table(min_steps),
                table_ok(m),
                in_v(ve as int),
                -1 <= a <= 2,
                (gv == vs && gx == dx) || (in_v(gv) && in_d(gx)),
                i32::MIN < vs - 1,
                vs + 1 <= i32::MAX,
                i32::MIN <= dx - vs - 1,
                dx - vs + 1 <= i32::MAX,
                !chosen ==> v == gv && x == gx && results@ == before,
                !chosen ==> forall|b: int| -1 <= b < a ==> !#[trigger] thrust_keeps_reach(m, gv, gx, ve as int, rem as int, b),
                chosen ==> greedy_thrust(m, gv, gx, ve as int, rem as int) == Some((v - gv) as int)
                    && results@ == before.push((v - gv) as i32) && x == gx - v && in_v(v as int) && in_d(x as int),
            decreases 2 - a, if chosen { 0int } else { 1int },
        {
            let nv = v + a;
            let nx = x - nv;
            if MIN_V <= nv && nv <= MAX_V && MIN_D <= nx && nx <= MAX_D {
                if can_reach(nv, ve, nx, rem, min_steps) {
                    assert(thrust_keeps_reach(m, gv, gx, ve as int, rem as int, a as int));
                    v = nv;
                    x = nx;
                    results.push(a);
                    chosen = true;
                }
            }
            if !chosen {
                assert(!thrust_keeps_reach(m, gv, gx, ve as int, rem as int, a as int));
                a = a + 1;
            }
        }
        proof {
            if !chosen {
                assert(!thrust_keeps_reach(m, gv, gx, ve as int, rem as int, -1));
                assert(!thrust_keeps_reach(m, gv, gx, ve as int, rem as int, 0));
                assert(!thrust_keeps_reach(m, gv, gx, ve as int, rem as int, 1));
                assert(greedy_thrust(m, gv, gx, ve as int, rem as int) is None);
            } else {
                assert(results@ + greedy_steps(m, v as int, x as int, ve as int, steps as int, i + 1) =~= before
                    + greedy_steps(m, gv, gx, ve as int, steps as int, i as int));
            }
        }
        i = i + 1;
    }
    proof {
        assert(greedy_steps(m, v as int, x as int, ve as int, steps as int, i as int) =~= Seq::<i32>::empty());
        assert(results@ + Seq::<i32>::empty() =~= results@);
    }
    results
}

// ---------------------------------------------------------------------------
// The table of minimum step counts
// ---------------------------------------------------------------------------

/// `n` thrusts (each `-1`, `0` or `1`) take a ship from velocity `v0` at `0` to
/// velocity `v` at `d`, staying within the table's velocities and
/// displacements after every step.
pub open spec fn reach_in(v0: int, v: int, d: int, n: nat) -> bool
    decreases n,
{
    if n == 0 {
        v == v0 && d == 0
    } else {
        ||| (in_v(v + 1) && in_d(d - v) && reach_in(v0, v + 1, d - v, (n - 1) as nat))
        ||| (in_v(v) && in_d(d - v) && reach_in(v0, v, d - v, (n - 1) as nat))
        ||| (in_v(v - 1) && in_d(d - v) && reach_in(v0, v - 1, d - v, (n - 1) as nat))
    }
}

/// Every finite entry of the table is a number of thrusts that does take the
/// ship where the entry says.
pub open spec fn table_sound(m: Seq<Seq<Seq<i32>>>) -> bool {
    forall|i: int, j: int, k: int|
        0 <= i < NUM_V && 0 <= j < NUM_V && 0 <= k < NUM_D && #[trigger] m[i][j][k] != INF ==> 0
            <= m[i][j][k] && reach_in(i + MIN_V, j + MIN_V, k + MIN_D, m[i][j][k] as nat)
}

/// Every entry is at most `INF` and not negative.
pub open spec fn table_bounded(m: Seq<Seq<Seq<i32>>>) -> bool {
    forall|i: int, j: int, k: int|
        0 <= i < NUM_V && 0 <= j < NUM_V && 0 <= k < NUM_D ==> 0 <= #[trigger] m[i][j][k] <= INF
}

/// The sum of the entries of a row.
pub open spec fn sum1(s: Seq<i32>) -> int
    decreases s.len(),
{
    if s.len() == 0 {
        0
    } else {
        sum1(s.drop_last()) + s.last()
    }
}

/// The sum of the entries of rows.
pub open spec fn sum2(s: Seq<Seq<i32>>) -> int
    decreases s.len(),
{
    if s.len() == 0 {
        0
    } else {
        sum2(s.drop_last()) + sum1(s.last())
    }
}

/// The sum of the entries of a table.
pub open spec fn sum3(s: Seq<Seq<Seq<i32>>>) -> int
    decreases s.len(),
{
    if s.len() == 0 {
        0
    } else {
        sum3(s.drop_last()) + sum2(s.last())
    }
}

proof fn lemma_sum1_update(s: Seq<i32>, k: int, x: i32)
    requires
        0 <= k < s.len(),
    ensures
        sum1(s.update(k, x)) == sum1(s) - s[k] + x,
    decreases s.len(),
{
    if k == s.len() - 1 {
        assert(s.update(k, x).drop_last() =~= s.drop_last());
    } else {
        assert(s.update(k, x).drop_last() =~= s.drop_last().update(k, x));
        lemma_sum1_update(s.drop_last(), k, x);
    }
}

proof fn lemma_sum2_update(s: Seq<Seq<i32>>, j: int, row: Seq<i32>)
    requires
        0 <= j < s.len(),
    ensures
        sum2(s.update(j, row)) == sum2(s) - sum1(s[j]) + sum1(row),
    decreases s.len(),
{
    if j == s.len() - 1 {
        assert(s.update(j, row).drop_last() =~= s.drop_last());
    } else {
        assert(s.update(j, row).drop_last() =~= s.drop_last().update(j, row));
        lemma_sum2_update(s.drop_last(), j, row);
    }
}

proof fn lemma_sum3_update(s: Seq<Seq<Seq<i32>>>, i: int, plane: Seq<Seq<i32>>)
    requires
        0 <= i < s.len(),
    ensures
        sum3(s.update(i, plane)) == sum3(s) - sum2(s[i]) + sum2(plane),
    decreases s.len(),
{
    if i == s.len() - 1 {
        assert(s.update(i, plane).drop_last() =~= s.drop_last());
    } else {
        assert(s.update(i, plane).drop_last() =~= s.drop_last().update(i, plane));
        lemma_sum3_update(s.drop_last(), i, plane);
    }
}

proof fn lemma_sum1_nonneg(s: Seq<i32>)
    requires
        forall|k: int| 0 <= k < s.len() ==> 0 <= #[trigger] s[k],
    ensures
        sum1(s) >= 0,
    decreases s.len(),
{
    if s.len() > 0 {
        lemma_sum1_nonneg(s.drop_last());
    }
}

proof fn lemma_sum2_nonneg(s: Seq<Seq<i32>>)
    requires
        forall|j: int, k: int| 0 <= j < s.len() && 0 <= k < s[j].len() ==> 0 <= #[trigger] s[j][k],
    ensures
        sum2(s) >= 0,
    decreases s.len(),
{
    if s.len() > 0 {
        lemma_sum2_nonneg(s.drop_last());
        let l = s.last();
        assert forall|k: int| 0 <= k < l.len() implies 0 <= #[trigger] l[k] by {
            assert(l[k] == s[s.len() - 1][k]);
        }
        lemma_sum1_nonneg(l);
    }
}

proof fn lemma_sum3_nonneg(s: Seq<Seq<Seq<i32>>>)
    requires
        forall|i: int, j: int, k: int|
            0 <= i < s.len() && 0 <= j < s[i].len() && 0 <= k < s[i][j].len() ==> 0
                <= #[trigger] s[i][j][k],
    ensures
        sum3(s) >= 0,
    decreases s.len(),
{
    if s.len() > 0 {
        lemma_sum3_nonneg(s.drop_last());
        let l = s.last();
        assert forall|j: int, k: int| 0 <= j < l.len() && 0 <= k < l[j].len() implies 0
            <= #[trigger] l[j][k] by {
            assert(l[j][k] == s[s.len() - 1][j][k]);
        }
        lemma_sum2_nonneg(l);
    }
}

/// Sets the entry `(i, j, k)` of the table.
fn set_entry(t: &mut Vec<Vec<Vec<i32>>>, i: usize, j: usize, k: usize, x: i32)
    requires
        table_ok(table(&*old(t))),
        i < NUM_V,
        j < NUM_V,
        k < NUM_D,
    ensures
        table(&*final(t)) == table(&*old(t)).update(
            i as int,
            table(&*old(t))[i as int].update(
                j as int,
                table(&*old(t))[i as int][j as int].update(k as int, x),
            ),
        ),
        sum3(table(&*final(t))) == sum3(table(&*old(t))) - table(&*old(t))[i as int][j as int][k as int] + x,
{
    let ghost m = table(&*t);
    let mut plane: Vec<Vec<i32>> = Vec::new();
    t.set_and_swap(i, &mut plane);
    assert(plane@.map_values(|b: Vec<i32>| b@) == m[i as int]);
    let mut row: Vec<i32> = Vec::new();
    plane.set_and_swap(j, &mut row);
    assert(row@ == m[i as int][j as int]);
    row.set(k, x);
    let ghost new_row = row@;
    plane.set_and_swap(j, &mut row);
    let ghost new_plane = plane@.map_values(|b: Vec<i32>| b@);
    assert(new_plane =~= m[i as int].update(j as int, new_row));
    t.set_and_swap(i, &mut plane);
    assert(table(&*t) =~= m.update(i as int, new_plane));
    proof {
        lemma_sum1_update(m[i as int][j as int], k as int, x);
        lemma_sum2_update(m[i as int], j as int, new_row);
        lemma_sum3_update(m, i as int, new_plane);
    }
}

/// A table of `NUM_V` by `NUM_V` by `NUM_D` entries, all `INF`.
fn inf_table() -> (t: Vec<Vec<Vec<i32>>>)
    ensures
        table_ok(table(&t)),
        forall|i: int, j: int, k: int|
            0 <= i < NUM_V && 0 <= j < NUM_V && 0 <= k < NUM_D ==> #[trigger] table(&t)[i][j][k]
                == INF,
{
    let mut t: Vec<Vec<Vec<i32>>> = Vec::new();
    let mut i: usize = 0;
    while i < NUM_V
        invariant
            i <= NUM_V,
            t.len() == i,
            forall|a: int| 0 <= a < i ==> (#[trigger] t@[a])@.len() == NUM_V,
            forall|a: int, b: int|
                0 <= a < i && 0 <= b < NUM_V ==> (#[trigger] t@[a]@[b])@.len() == NUM_D,
            forall|a: int, b: int, c: int|
                0 <= a < i && 0 <= b < NUM_V && 0 <= c < NUM_D ==> #[trigger] t@[a]@[b]@[c] == INF,
        decreases NUM_V - i,
    {
        let mut plane: Vec<Vec<i32>> = Vec::new();
        let mut j: usize = 0;
        while j < NUM_V
            invariant
                j <= NUM_V,
                plane.len() == j,
                forall|b: int| 0 <= b < j ==> (#[trigger] plane@[b])@.len() == NUM_D,
                forall|b: int, c: int|
                    0 <= b < j && 0 <= c < NUM_D ==> #[trigger] plane@[b]@[c] == INF,
            decreases NUM_V - j,
        {
            let mut row: Vec<i32> = Vec::new();
            let mut k: usize = 0;
            while k < NUM_D
                invariant
                    k <= NUM_D,
                    row.len() == k,
                    forall|c: int| 0 <= c < k ==> #[trigger] row@[c] == INF,
                decreases NUM_D - k,
            {
                row.push(INF);
                k = k + 1;
            }
            plane.push(row);
            j = j + 1;
        }
        t.push(plane);
        i = i + 1;
    }
    proof {
        let m = table(&t);
        assert forall|a: int| 0 <= a < NUM_V implies (#[trigger] m[a]).len() == NUM_V by {
            assert(m[a] == t@[a]@.map_values(|b: Vec<i32>| b@));
        }
        assert forall|a: int, b: int| 0 <= a < NUM_V && 0 <= b < NUM_V implies (
        #[trigger] m[a][b]).len() == NUM_D by {
            assert(m[a] == t@[a]@.map_values(|b: Vec<i32>| b@));
            assert(m[a][b] == t@[a]@[b]@);
        }
        assert forall|a: int, b: int, c: int|
            0 <= a < NUM_V && 0 <= b < NUM_V && 0 <= c < NUM_D implies #[trigger] m[a][b][c]
            == INF by {
            assert(m[a] == t@[a]@.map_values(|b: Vec<i32>| b@));
            assert(m[a][b] == t@[a]@[b]@);
        }
    }
    t
}

/// `(v0, v, d)` is a state of the table: start velocity, velocity, displacement.
pub open spec fn in_table(v0: int, v: int, d: int) -> bool {
    in_v(v0) && in_v(v) && in_d(d)
}

/// The thrust `a` from velocity `v` at displacement `d` either leaves the
/// table or leads to an entry at most one more than that of `(v, d)`.
pub open spec fn succ_ok(m: Seq<Seq<Seq<i32>>>, v0: int, v: int, d: int, a: int) -> bool {
    in_v(v + a) && in_d(d + v + a) ==> lookup(m, v0, v + a, d + v + a) <= lookup(m, v0, v, d) + 1
}

/// From a finite entry, every thrust that stays in the table leads to an
/// entry at most one more.
pub open spec fn step_closed(m: Seq<Seq<Seq<i32>>>, v0: int, v: int, d: int) -> bool {
    lookup(m, v0, v, d) < INF ==> {
        &&& succ_ok(m, v0, v, d, -1)
        &&& succ_ok(m, v0, v, d, 0)
        &&& succ_ok(m, v0, v, d, 1)
    }
}

/// Every state of the table that some `n` thrusts reach has an entry of at
/// most `n`.
pub open spec fn table_complete(m: Seq<Seq<Seq<i32>>>) -> bool {
    forall|v0: int, v: int, d: int, n: nat|
        in_table(v0, v, d) && #[trigger] reach_in(v0, v, d, n) ==> lookup(m, v0, v, d) <= n
}

/// A search item: from velocity `v0`, velocity `v` at `pos` after `steps`
/// thrusts.
pub open spec fn item_ok(m: Seq<Seq<Seq<i32>>>, it: (i32, i32, i32, i32)) -> bool {
    let (v0, v, pos, steps) = it;
    &&& in_v(v0 as int)
    &&& in_v(v as int)
    &&& in_d(pos as int)
    &&& 0 <= steps < INF
    &&& reach_in(v0 as int, v as int, pos as int, steps as nat)
    &&& lookup(m, v0 as int, v as int, pos as int) <= steps
}

/// The item at `k` of the queue is the state `(v0, v, d)` with `steps`.
pub open spec fn item_at(q: Seq<(i32, i32, i32, i32)>, k: int, v0: int, v: int, d: int, steps: int) -> bool {
    &&& 0 <= k < q.len()
    &&& q[k].0 == v0
    &&& q[k].1 == v
    &&& q[k].2 == d
    &&& q[k].3 == steps
}

/// A finite entry of the table is either done or waits in the queue with its
/// own step count.
pub open spec fn covered(
    m: Seq<Seq<Seq<i32>>>,
    done: Set<(int, int, int)>,
    q: Seq<(i32, i32, i32, i32)>,
    v0: int,
    v: int,
    d: int,
) -> bool {
    in_table(v0, v, d) && lookup(m, v0, v, d) < INF ==> done.contains((v0, v, d)) || exists|k: int|
        #[trigger] item_at(q, k, v0, v, d, lookup(m, v0, v, d))
}

/// The queue holds step counts in `lo..=lo + 1`, in order.
pub open spec fn queue_ordered(q: Seq<(i32, i32, i32, i32)>, lo: int) -> bool {
    &&& forall|k: int| 0 <= k < q.len() ==> lo <= #[trigger] q[k].3 <= lo + 1
    &&& forall|k1: int, k2: int| 0 <= k1 < k2 < q.len() ==> #[trigger] q[k1].3 <= #[trigger] q[k2].3
}

/// Every done state is in the table, closed under one thrust, and has an
/// entry of at most `lo`.
pub open spec fn done_ok(m: Seq<Seq<Seq<i32>>>, done: Set<(int, int, int)>, lo: int) -> bool {
    forall|s: (int, int, int)|
        #[trigger] done.contains(s) ==> in_table(s.0, s.1, s.2) && step_closed(m, s.0, s.1, s.2)
            && lookup(m, s.0, s.1, s.2) <= lo
}

/// `m` is `before` with the entry of `(v0, v, d)` set to `x`.
pub open spec fn updated_at(
    before: Seq<Seq<Seq<i32>>>,
    m: Seq<Seq<Seq<i32>>>,
    v0: int,
    v: int,
    d: int,
    x: int,
) -> bool {
    &&& table_ok(m)
    &&& lookup(m, v0, v, d) == x
    &&& forall|a: int, b: int, c: int|
        in_table(a, b, c) && !(a == v0 && b == v && c == d) ==> #[trigger] lookup(m, a, b, c)
            == lookup(before, a, b, c)
}

proof fn lemma_updated_at(before: Seq<Seq<Seq<i32>>>, m: Seq<Seq<Seq<i32>>>, v0: int, v: int, d: int, x: i32)
    requires
        table_ok(before),
        in_table(v0, v, d),
        m == before.update(
            v0 - MIN_V,
            before[v0 - MIN_V].update(
                v - MIN_V,
                before[v0 - MIN_V][v - MIN_V].update(d - MIN_D, x),
            ),
        ),
    ensures
        updated_at(before, m, v0, v, d, x as int),
{
    assert forall|i: int| 0 <= i < NUM_V implies (#[trigger] m[i]).len() == NUM_V by {
        assert(before[i].len() == NUM_V);
    }
    assert forall|i: int, j: int| 0 <= i < NUM_V && 0 <= j < NUM_V implies (#[trigger] m[i][j]).len()
        == NUM_D by {
        assert(before[i].len() == NUM_V);
        assert(before[i][j].len() == NUM_D);
    }
    assert forall|a: int, b: int, c: int|
        in_table(a, b, c) && !(a == v0 && b == v && c == d) implies #[trigger] lookup(m, a, b, c)
        == lookup(before, a, b, c) by {
        assert(before[a - MIN_V].len() == NUM_V);
        assert(before[a - MIN_V][b - MIN_V].len() == NUM_D);
    }
    assert(before[v0 - MIN_V].len() == NUM_V);
    assert(before[v0 - MIN_V][v - MIN_V].len() == NUM_D);
}

/// A step-closed table with zeros on the diagonal is complete.
proof fn lemma_complete_at(m: Seq<Seq<Seq<i32>>>, v0: int, v: int, d: int, n: nat)
    requires
        table_ok(m),
        table_bounded(m),
        forall|w: int| in_v(w) ==> lookup(m, w, w, 0) == 0,
        forall|a: int, b: int, c: int| in_table(a, b, c) ==> #[trigger] step_closed(m, a, b, c),
        in_table(v0, v, d),
        reach_in(v0, v, d, n),
    ensures
        lookup(m, v0, v, d) <= n,
    decreases n,
{
    assert(0 <= m[v0 - MIN_V][v - MIN_V][d - MIN_D] <= INF);
    if n == 0 {
    } else if n > INF {
    } else {
        let vp: int = if in_v(v + 1) && in_d(d - v) && reach_in(v0, v + 1, d - v, (n - 1) as nat) {
            v + 1
        } else if in_v(v) && in_d(d - v) && reach_in(v0, v, d - v, (n - 1) as nat) {
            v
        } else {
            v - 1
        };
        lemma_complete_at(m, v0, vp, d - v, (n - 1) as nat);
        assert(step_closed(m, v0, vp, d - v));
        assert(succ_ok(m, v0, vp, d - v, v - vp));
        assert(d - v + vp + (v - vp) == d);
    }
}

proof fn lemma_complete(m: Seq<Seq<Seq<i32>>>)
    requires
        table_ok(m),
        table_bounded(m),
        forall|w: int| in_v(w) ==> lookup(m, w, w, 0) == 0,
        forall|a: int, b: int, c: int| in_table(a, b, c) ==> #[trigger] step_closed(m, a, b, c),
    ensures
        table_complete(m),
{
    assert forall|v0: int, v: int, d: int, n: nat|
        in_table(v0, v, d) && #[trigger] reach_in(v0, v, d, n) implies lookup(m, v0, v, d) <= n by {
        lemma_complete_at(m, v0, v, d, n);
    }
}

proof fn lemma_table_sum_nonneg(m: Seq<Seq<Seq<i32>>>)
    requires
        table_ok(m),
        table_bounded(m),
    ensures
        sum3(m) >= 0,
{
    assert forall|i: int, j: int, k: int|
        0 <= i < m.len() && 0 <= j < m[i].len() && 0 <= k < m[i][j].len() implies 0
        <= #[trigger] m[i][j][k] by {
        assert(m[i].len() == NUM_V);
        assert(m[i][j].len() == NUM_D);
    }
    lemma_sum3_nonneg(m);
}

/// A thrust's successor keeps its bound when only an entry above the bound
/// was lowered.
proof fn lemma_succ_kept(
    before: Seq<Seq<Seq<i32>>>,
    m: Seq<Seq<Seq<i32>>>,
    y: (int, int, int),
    x: int,
    s: (int, int, int),
    a: int,
)
    requires
        updated_at(before, m, y.0, y.1, y.2, x),
        in_table(y.0, y.1, y.2),
        x < lookup(before, y.0, y.1, y.2),
        in_table(s.0, s.1, s.2),
        lookup(m, s.0, s.1, s.2) == lookup(before, s.0, s.1, s.2),
        succ_ok(before, s.0, s.1, s.2, a),
    ensures
        succ_ok(m, s.0, s.1, s.2, a),
{
    if in_v(s.1 + a) && in_d(s.2 + s.1 + a) {
        if s.0 == y.0 && s.1 + a == y.1 && s.2 + s.1 + a == y.2 {
        } else {
            assert(lookup(m, s.0, s.1 + a, s.2 + s.1 + a) == lookup(before, s.0, s.1 + a, s.2 + s.1 + a));
        }
    }
}

/// A done state stays closed when an entry above its own is lowered.
proof fn lemma_closed_kept(
    before: Seq<Seq<Seq<i32>>>,
    m: Seq<Seq<Seq<i32>>>,
    y: (int, int, int),
    x: int,
    s: (int, int, int),
)
    requires
        updated_at(before, m, y.0, y.1, y.2, x),
        in_table(y.0, y.1, y.2),
        x < lookup(before, y.0, y.1, y.2),
        in_table(s.0, s.1, s.2),
        s != y,
        step_closed(before, s.0, s.1, s.2),
    ensures
        step_closed(m, s.0, s.1, s.2),
        lookup(m, s.0, s.1, s.2) == lookup(before, s.0, s.1, s.2),
{
    assert(lookup(m, s.0, s.1, s.2) == lookup(before, s.0, s.1, s.2));
    if lookup(m, s.0, s.1, s.2) < INF {
        lemma_succ_kept(before, m, y, x, s, -1);
        lemma_succ_kept(before, m, y, x, s, 0);
        lemma_succ_kept(before, m, y, x, s, 1);
    }
}

/// The table of step counts from a breadth-first search over one axis: for
/// each start velocity, the fewest thrusts of `-1`, `0`, `1` that stay within
/// the table and reach each velocity and displacement, or `INF` where none
/// do.
#[verifier::rlimit(100)]
pub fn precompute_min_steps() -> (r: Vec<Vec<Vec<i32>>>)
    ensures
        table_ok(table(&r)),
        table_bounded(table(&r)),
        table_sound(table(&r)),
        table_complete(table(&r)),
        forall|v: int| in_v(v) ==> lookup(table(&r), v, v, 0) == 0,
{
    let mut min_steps = inf_table();
    let mut q: VecDeque<(i32, i32, i32, i32)> = VecDeque::new();
    let mut v = MIN_V;
    proof {
        let m = table(&min_steps);
        assert forall|a: int, b: int, c: int| in_table(a, b, c) implies #[trigger] lookup(m, a, b, c)
            == INF by {
            assert(m[a - MIN_V][b - MIN_V][c - MIN_D] == INF);
        }
    }
    while v <= MAX_V
        invariant
            MIN_V <= v <= MAX_V + 1,
            table_ok(table(&min_steps)),
            forall|a: int, b: int, c: int|
                in_table(a, b, c) ==> #[trigger] lookup(table(&min_steps), a, b, c) == if a == b
                    && c == 0 && a < v {
                    0int
                } else {
                    INF as int
                },
            q@.len() == v - MIN_V,
            forall|k: int| 0 <= k < q@.len() ==> #[trigger] item_at(q@, k, k + MIN_V, k + MIN_V, 0, 0),
        decreases MAX_V + 1 - v,
    {
        let ghost before = table(&min_steps);
        let ghost qb = q@;
        let i = (v - MIN_V) as usize;
        set_entry(&mut min_steps, i, i, (0 - MIN_D) as usize, 0);
        proof {
            lemma_updated_at(before, table(&min_steps), v as int, v as int, 0, 0);
            let m = table(&min_steps);
            assert forall|a: int, b: int, c: int| in_table(a, b, c) implies #[trigger] lookup(m, a, b, c)
                == if a == b && c == 0 && a < v + 1 {
                0int
            } else {
                INF as int
            } by {
                if !(a == v && b == v && c == 0) {
                    assert(lookup(m, a, b, c) == lookup(before, a, b, c));
                }
            }
        }
        q.push_back((v, v, 0, 0));
        proof {
            assert forall|k: int| 0 <= k < q@.len() implies #[trigger] item_at(q@, k, k + MIN_V, k + MIN_V, 0, 0) by {
                if k < q@.len() - 1 {
                    assert(item_at(qb, k, k + MIN_V, k + MIN_V, 0, 0));
                }
            }
        }
        v = v + 1;
    }
    let ghost mut done: Set<(int, int, int)> = Set::empty();
    let ghost mut lo: int = 0;
    proof {
        let m = table(&min_steps);
        assert forall|i: int, j: int, k: int|
            0 <= i < NUM_V && 0 <= j < NUM_V && 0 <= k < NUM_D implies 0 <= #[trigger] m[i][j][k] <= INF by {
            assert(lookup(m, i + MIN_V, j + MIN_V, k + MIN_D) == m[i][j][k]);
        }
        assert forall|i: int, j: int, k: int|
            0 <= i < NUM_V && 0 <= j < NUM_V && 0 <= k < NUM_D && #[trigger] m[i][j][k] != INF
            implies 0 <= m[i][j][k] && reach_in(i + MIN_V, j + MIN_V, k + MIN_D, m[i][j][k] as nat) by {
            assert(lookup(m, i + MIN_V, j + MIN_V, k + MIN_D) == m[i][j][k]);
        }
        assert forall|w: int| in_v(w) implies lookup(m, w, w, 0) == 0 by {
            assert(in_table(w, w, 0));
        }
        assert forall|k: int| 0 <= k < q@.len() implies item_ok(m, #[trigger] q@[k]) by {
            assert(item_at(q@, k, k + MIN_V, k + MIN_V, 0, 0));
            assert(in_table(k + MIN_V, k + MIN_V, 0));
        }
        assert forall|a: int, b: int, c: int| #[trigger] covered(m, done, q@, a, b, c) by {
            if in_table(a, b, c) && lookup(m, a, b, c) < INF {
                assert(item_at(q@, a - MIN_V, a, b, c, lookup(m, a, b, c)));
            }
        }
        assert forall|k: int| 0 <= k < q@.len() implies lo <= #[trigger] q@[k].3 <= lo + 1 by {
            assert(item_at(q@, k, k + MIN_V, k + MIN_V, 0, 0));
        }
        assert forall|k1: int, k2: int| 0 <= k1 < k2 < q@.len() implies #[trigger] q@[k1].3
            <= #[trigger] q@[k2].3 by {
            assert(item_at(q@, k1, k1 + MIN_V, k1 + MIN_V, 0, 0));
            assert(item_at(q@, k2, k2 + MIN_V, k2 + MIN_V, 0, 0));
        }
        lemma_table_sum_nonneg(m);
    }
    while q.len() > 0
        invariant
            table_ok(table(&min_steps)),
            table_bounded(table(&min_steps)),
            table_sound(table(&min_steps)),
            forall|w: int| in_v(w) ==> lookup(table(&min_steps), w, w, 0) == 0,
            forall|k: int| 0 <= k < q@.len() ==> item_ok(table(&min_steps), #[trigger] q@[k]),
            sum3(table(&min_steps)) >= 0,
            0 <= lo,
            done_ok(table(&min_steps), done, lo),
            queue_ordered(q@, lo),
            forall|a: int, b: int, c: int| #[trigger] covered(table(&min_steps), done, q@, a, b, c),
        decreases 4 * sum3(table(&min_steps)) + q@.len(),
    {
        let ghost measure0 = 4 * sum3(table(&min_steps)) + q@.len();
        let ghost q0 = q@;
        let ghost t0 = table(&min_steps);
        let ghost done0 = done;
        let ghost lo0 = lo;
        let (v0, v, pos, steps) = match q.pop_front() {
            Some(it) => it,
            None => (0, 0, 0, 0),
        };
        assert(item_ok(t0, q0[0]));
        assert forall|k: int| 0 <= k < q@.len() implies item_ok(table(&min_steps), #[trigger] q@[k]) by {
            assert(q@[k] == q0[k + 1]);
        }
        proof {
            assert(lo0 <= q0[0].3);
            assert forall|k: int| 0 <= k < q@.len() implies steps <= #[trigger] q@[k].3 <= steps + 1 by {
                assert(q@[k] == q0[k + 1]);
                assert(q0[0].3 <= q0[k + 1].3);
                assert(q0[k + 1].3 <= lo0 + 1);
            }
            assert forall|k1: int, k2: int| 0 <= k1 < k2 < q@.len() implies #[trigger] q@[k1].3
                <= #[trigger] q@[k2].3 by {
                assert(q@[k1] == q0[k1 + 1]);
                assert(q@[k2] == q0[k2 + 1]);
                assert(q0[k1 + 1].3 <= q0[k2 + 1].3);
            }
            lo = steps as int;
        }
        let cur = table_entry(&min_steps, v0, v, pos);
        if cur >= steps {
            let ghost x: (int, int, int) = (v0 as int, v as int, pos as int);
            proof {
                assert forall|a: int, b: int, c: int| #[trigger] covered(t0, done0.insert(x), q@, a, b, c) by {
                    if in_table(a, b, c) && lookup(t0, a, b, c) < INF && !done0.insert(x).contains((a, b, c)) {
                        assert(covered(t0, done0, q0, a, b, c));
                        let k = choose|k: int| #[trigger] item_at(q0, k, a, b, c, lookup(t0, a, b, c));
                        assert(item_at(q0, k, a, b, c, lookup(t0, a, b, c)));
                        assert(k != 0);
                        assert(q@[k - 1] == q0[k]);
                        assert(item_at(q@, k - 1, a, b, c, lookup(t0, a, b, c)));
                    }
                }
                assert forall|s: (int, int, int)| #[trigger] done0.contains(s) implies in_table(s.0, s.1, s.2)
                    && step_closed(t0, s.0, s.1, s.2) && lookup(t0, s.0, s.1, s.2) <= lo by {
                    assert(done0.contains(s));
                }
            }
            let mut a: i32 = -1;
            while a <= 1
                invariant
                    -1 <= a <= 2,
                    in_v(v0 as int),
                    in_v(v as int),
                    in_d(pos as int),
                    0 <= steps < INF,
                    reach_in(v0 as int, v as int, pos as int, steps as nat),
                    x == (v0 as int, v as int, pos as int),
                    lo == steps,
                    lookup(table(&min_steps), v0 as int, v as int, pos as int) == steps,
                    table_ok(table(&min_steps)),
                    table_bounded(table(&min_steps)),
                    table_sound(table(&min_steps)),
                    forall|w: int| in_v(w) ==> lookup(table(&min_steps), w, w, 0) == 0,
                    forall|k: int| 0 <= k < q@.len() ==> item_ok(table(&min_steps), #[trigger] q@[k]),
                    sum3(table(&min_steps)) >= 0,
                    4 * sum3(table(&min_steps)) + q@.len() < measure0,
                    queue_ordered(q@, lo),
                    done_ok(table(&min_steps), done0, lo),
                    forall|a2: int, b2: int, c2: int|
                        #[trigger] covered(table(&min_steps), done0.insert(x), q@, a2, b2, c2),
                    forall|b: int|
                        -1 <= b < a ==> #[trigger] succ_ok(table(&min_steps), v0 as int, v as int, pos as int, b),
                decreases 2 - a,
            {
                let nv = v + a;
                let npos = pos + nv;
                if MIN_V <= nv && nv <= MAX_V && MIN_D <= npos && npos <= MAX_D {
                    let e = table_entry(&min_steps, v0, nv, npos);
                    if e > steps + 1 {
                        let ghost before = table(&min_steps);
                        let ghost qb = q@;
                        let ni = (v0 - MIN_V) as usize;
                        let nj = (nv - MIN_V) as usize;
                        let nk = (npos - MIN_D) as usize;
                        set_entry(&mut min_steps, ni, nj, nk, steps + 1);
                        let ghost y: (int, int, int) = (v0 as int, nv as int, npos as int);
                        proof {
                            let m = table(&min_steps);
                            lemma_updated_at(before, m, v0 as int, nv as int, npos as int, (steps + 1) as i32);
                            assert(reach_in(v0 as int, nv as int, npos as int, (steps + 1) as nat)) by {
                                assert(npos - nv == pos);
                                if a == -1 {
                                    assert(nv + 1 == v);
                                } else if a == 0 {
                                    assert(nv == v);
                                } else {
                                    assert(nv - 1 == v);
                                }
                            }
                            assert forall|i: int, j: int, k: int|
                                0 <= i < NUM_V && 0 <= j < NUM_V && 0 <= k < NUM_D implies #[trigger] m[i][j][k]
                                <= before[i][j][k] && 0 <= m[i][j][k] <= INF by {
                                if i == ni && j == nj && k == nk {
                                } else {
                                    assert(m[i][j][k] == before[i][j][k]);
                                }
                            }
                            assert forall|i: int, j: int, k: int|
                                0 <= i < NUM_V && 0 <= j < NUM_V && 0 <= k < NUM_D && #[trigger] m[i][j][k] != INF
                                implies 0 <= m[i][j][k] && reach_in(i + MIN_V, j + MIN_V, k + MIN_D, m[i][j][k] as nat) by {
                                if i == ni && j == nj && k == nk {
                                } else {
                                    assert(m[i][j][k] == before[i][j][k]);
                                }
                            }
                            assert forall|w: int| in_v(w) implies lookup(m, w, w, 0) == 0 by {
                                assert(lookup(before, w, w, 0) == 0);
                            }
                            assert forall|k: int| 0 <= k < q@.len() implies item_ok(m, #[trigger] q@[k]) by {
                                assert(item_ok(before, q@[k]));
                                let (qa, qb2, qc, _) = q@[k];
                                assert(m[qa - MIN_V][qb2 - MIN_V][qc - MIN_D] <= before[qa - MIN_V][qb2 - MIN_V][qc - MIN_D]);
                            }
                            lemma_table_sum_nonneg(m);
                            assert(y != x);
                            assert(lookup(m, v0 as int, v as int, pos as int) == steps) by {
                                assert(lookup(m, x.0, x.1, x.2) == lookup(before, x.0, x.1, x.2));
                            }
                            assert forall|s: (int, int, int)| #[trigger] done0.contains(s) implies in_table(s.0, s.1, s.2)
                                && step_closed(m, s.0, s.1, s.2) && lookup(m, s.0, s.1, s.2) <= lo by {
                                assert(done0.contains(s));
                                assert(s != y);
                                lemma_closed_kept(before, m, y, steps + 1, s);
                            }
                            assert forall|b: int| -1 <= b < a + 1 implies #[trigger] succ_ok(m, v0 as int, v as int, pos as int, b) by {
                                if b < a {
                                    assert(succ_ok(before, x.0, x.1, x.2, b));
                                    assert(lookup(m, x.0, x.1, x.2) == lookup(before, x.0, x.1, x.2));
                                    lemma_succ_kept(before, m, y, steps + 1, x, b);
                                } else {
                                    assert(pos + v + a == npos);
                                }
                            }
                        }
                        let ns = steps + 1;
                        q.push_back((v0, nv, npos, ns));
                        proof {
                            let m = table(&min_steps);
                            assert forall|k: int| 0 <= k < q@.len() implies item_ok(m, #[trigger] q@[k]) by {
                                if k < q@.len() - 1 {
                                    assert(q@[k] == qb[k]);
                                } else {
                                    assert(q@[k] == (v0, nv, npos, ns));
                                }
                            }
                            assert forall|k: int| 0 <= k < q@.len() implies lo <= #[trigger] q@[k].3 <= lo + 1 by {
                                if k < q@.len() - 1 {
                                    assert(q@[k] == qb[k]);
                                }
                            }
                            assert forall|k1: int, k2: int| 0 <= k1 < k2 < q@.len() implies #[trigger] q@[k1].3
                                <= #[trigger] q@[k2].3 by {
                                assert(q@[k1] == qb[k1]);
                                if k2 < q@.len() - 1 {
                                    assert(q@[k2] == qb[k2]);
                                }
                            }
                            assert forall|a2: int, b2: int, c2: int|
                                #[trigger] covered(m, done0.insert(x), q@, a2, b2, c2) by {
                                if in_table(a2, b2, c2) && lookup(m, a2, b2, c2) < INF && !done0.insert(x).contains((a2, b2, c2)) {
                                    if a2 == y.0 && b2 == y.1 && c2 == y.2 {
                                        assert(item_at(q@, q@.len() - 1, a2, b2, c2, lookup(m, a2, b2, c2)));
                                    } else {
                                        assert(lookup(m, a2, b2, c2) == lookup(before, a2, b2, c2));
                                        assert(covered(before, done0.insert(x), qb, a2, b2, c2));
                                        let k = choose|k: int| #[trigger] item_at(qb, k, a2, b2, c2, lookup(before, a2, b2, c2));
                                        assert(item_at(qb, k, a2, b2, c2, lookup(before, a2, b2, c2)));
                                        assert(q@[k] == qb[k]);
                                        assert(item_at(q@, k, a2, b2, c2, lookup(m, a2, b2, c2)));
                                    }
                                }
                            }
                        }
                    } else {
                        proof {
                            assert(pos + v + a == npos);
                            assert(succ_ok(table(&min_steps), v0 as int, v as int, pos as int, a as int));
                        }
                    }
                } else {
                    proof {
                        assert(!(in_v(v + a) && in_d(pos + v + a)));
                        assert(succ_ok(table(&min_steps), v0 as int, v as int, pos as int, a as int));
                    }
                }
                a = a + 1;
            }
            proof {
                let m = table(&min_steps);
                done = done0.insert(x);
                assert(succ_ok(m, v0 as int, v as int, pos as int, -1));
                assert(succ_ok(m, v0 as int, v as int, pos as int, 0));
                assert(succ_ok(m, v0 as int, v as int, pos as int, 1));
                assert forall|s: (int, int, int)| #[trigger] done.contains(s) implies in_table(s.0, s.1, s.2)
                    && step_closed(m, s.0, s.1, s.2) && lookup(m, s.0, s.1, s.2) <= lo by {
                    if s != x {
                        assert(done0.contains(s));
                    }
                }
            }
        } else {
            proof {
                assert forall|a: int, b: int, c: int| #[trigger] covered(t0, done0, q@, a, b, c) by {
                    if in_table(a, b, c) && lookup(t0, a, b, c) < INF && !done0.contains((a, b, c)) {
                        assert(covered(t0, done0, q0, a, b, c));
                        let k = choose|k: int| #[trigger] item_at(q0, k, a, b, c, lookup(t0, a, b, c));
                        assert(item_at(q0, k, a, b, c, lookup(t0, a, b, c)));
                        assert(k != 0);
                        assert(q@[k - 1] == q0[k]);
                        assert(item_at(q@, k - 1, a, b, c, lookup(t0, a, b, c)));
                    }
                }
                assert forall|s: (int, int, int)| #[trigger] done0.contains(s) implies in_table(s.0, s.1, s.2)
                    && step_closed(t0, s.0, s.1, s.2) && lookup(t0, s.0, s.1, s.2) <= lo by {
                    assert(done0.contains(s));
                }
            }
        }
    }
    proof {
        let m = table(&min_steps);
        assert forall|a: int, b: int, c: int| in_table(a, b, c) implies #[trigger] step_closed(m, a, b, c) by {
            assert(covered(m, done, q@, a, b, c));
            if lookup(m, a, b, c) < INF {
                if !done.contains((a, b, c)) {
                    let k = choose|k: int| #[trigger] item_at(q@, k, a, b, c, lookup(m, a, b, c));
                    assert(item_at(q@, k, a, b, c, lookup(m, a, b, c)));
                }
                assert(done.contains((a, b, c)));
            }
        }
        lemma_complete(m);
    }
    min_steps
}

} // verus!
