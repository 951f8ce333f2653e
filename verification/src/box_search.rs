//! Exhaustive best-first search for a short route through a few points near
//! the origin: states are position, velocity and the set of points not yet
//! visited (a bit per point), the frontier is ordered by points left plus
//! steps taken, and positions stay within 12 of the origin on both axes.
use vstd::prelude::*;

use crate::beamsearch::key_digit;
use crate::lasolver::{pt, run, thrusts_ok};
use crate::nearest::to_move;
use crate::text::push_char;
use vstd::set_lib::{lemma_int_range, lemma_len_subset, set_int_range};

verus! {

/// Bit `i` of `rem` is set: point `i` is not yet visited.
pub open spec fn bit(rem: u32, i: u32) -> bool {
    (rem >> i) & 1 == 1
}

proof fn lemma_bit_clear(rem: u32, j: u32, i: u32)
    requires
        i < 32,
        j < 32,
    ensures
        bit(rem & !(1u32 << j), i) == (bit(rem, i) && i != j),
{
    assert(((rem & !(1u32 << j)) >> i) & 1 == 1 <==> (((rem >> i) & 1 == 1) && i != j)) by (bit_vector)
        requires
            i < 32,
            j < 32,
    ;
}

proof fn lemma_bit_full(n: u32, i: u32)
    requires
        n < 32,
        i < n,
    ensures
        bit(((1u32 << n) - 1) as u32, i),
{
    assert((((1u32 << n) - 1) as u32 >> i) & 1 == 1) by (bit_vector)
        requires
            n < 32,
            i < n,
    ;
}

proof fn lemma_bit_zero(i: u32)
    requires
        i < 32,
    ensures
        !bit(0, i),
{
    assert((0u32 >> i) & 1 != 1) by (bit_vector);
}

/// The unvisited set after arriving at `p`: the bit of the first point from
/// index `k` on that equals `p` is cleared.
pub open spec fn visit_rem(ps: Seq<(i64, i64)>, rem: u32, p: (i32, i32), k: int) -> u32
    decreases ps.len() - k,
{
    if k < 0 || k >= ps.len() {
        rem
    } else if ps[k].0 == p.0 && ps[k].1 == p.1 {
        rem & !(1u32 << (k as u32))
    } else {
        visit_rem(ps, rem, p, k + 1)
    }
}

proof fn lemma_visit_rem(ps: Seq<(i64, i64)>, rem: u32, p: (i32, i32), k: int, i: u32)
    requires
        0 <= k,
        ps.len() < 32,
        i < ps.len(),
    ensures
        bit(visit_rem(ps, rem, p, k), i) ==> bit(rem, i),
        bit(rem, i) && !bit(visit_rem(ps, rem, p, k), i) ==> ps[i as int].0 == p.0 && ps[i as int].1 == p.1,
    decreases ps.len() - k,
{
    if k < ps.len() {
        if ps[k].0 == p.0 && ps[k].1 == p.1 {
            lemma_bit_clear(rem, k as u32, i);
        } else {
            lemma_visit_rem(ps, rem, p, k + 1, i);
        }
    }
}

/// A state: position, velocity, unvisited set.
pub type BoxKey = ((i32, i32), (i32, i32), u32);

/// Within 12 of the origin on both axes.
pub open spec fn in_box(p: (i32, i32)) -> bool {
    -12 <= p.0 <= 12 && -12 <= p.1 <= 12
}

/// One step with a keypad thrust leads from `a` to `b`, and `b`'s unvisited
/// set is `a`'s after arriving at `b`'s position.
pub open spec fn box_step(ps: Seq<(i64, i64)>, a: BoxKey, b: BoxKey) -> bool {
    &&& -1 <= b.1.0 - a.1.0 <= 1
    &&& -1 <= b.1.1 - a.1.1 <= 1
    &&& b.0.0 == a.0.0 + b.1.0
    &&& b.0.1 == a.0.1 + b.1.1
    &&& b.2 == visit_rem(ps, a.2, b.0, 0)
}

/// The table of seen states: the start first, with no steps; every other
/// one step from the entry it names, which took fewer steps; states are
/// distinct and stay in the box with small velocities.
pub open spec fn box_table_ok(t: Seq<(BoxKey, u32, usize)>, ps: Seq<(i64, i64)>, start: BoxKey) -> bool {
    &&& t.len() >= 1
    &&& t[0].0 == start
    &&& t[0].1 == 0
    &&& forall|i: int, j: int| 0 <= i < j < t.len() ==> (#[trigger] t[i]).0 != (#[trigger] t[j]).0
    &&& forall|i: int|
        0 <= i < t.len() ==> in_box((#[trigger] t[i]).0.0) && -24 <= t[i].0.1.0 <= 24 && -24 <= t[i].0.1.1 <= 24
            && t[i].1 <= 255
    &&& forall|i: int|
        1 <= i < t.len() ==> {
            &&& (#[trigger] t[i]).2 < t.len()
            &&& t[t[i].2 as int].1 < t[i].1
            &&& box_step(ps, t[t[i].2 as int].0, t[i].0)
        }
}

/// Every frontier entry names a table entry and took at least its steps.
pub open spec fn box_frontier_ok(h: Seq<(u64, u32, usize)>, t: Seq<(BoxKey, u32, usize)>) -> bool {
    forall|k: int| 0 <= k < h.len() ==> (#[trigger] h[k]).2 < t.len() && t[h[k].2 as int].1 <= h[k].1
}

/// The entry of the frontier with the least priority (the first of them).
/// The index of the entry of least priority among the first `n` entries of
/// `h` (a later entry replaces the least so far only when its priority is
/// strictly less).
pub open spec fn least_in(h: Seq<(u64, u32, usize)>, n: int) -> int
    decreases n,
{
    if n <= 1 {
        0
    } else {
        let b = least_in(h, n - 1);
        if h[n - 1].0 < h[b].0 {
            n - 1
        } else {
            b
        }
    }
}

proof fn lemma_least_in_range(h: Seq<(u64, u32, usize)>, n: int)
    ensures
        n >= 1 ==> 0 <= least_in(h, n) < n,
    decreases n,
{
    if n > 1 {
        lemma_least_in_range(h, n - 1);
    }
}

/// The index of the first entry of `t` from `i` on whose state is `s`.
pub open spec fn box_key_from(t: Seq<(BoxKey, u32, usize)>, s: BoxKey, i: int) -> Option<int>
    decreases t.len() - i,
{
    if i < 0 || i >= t.len() {
        None
    } else if t[i].0 == s {
        Some(i)
    } else {
        box_key_from(t, s, i + 1)
    }
}

/// The number of set bits among the lowest `k` bits of `x`.
pub open spec fn pop_count(x: u32, k: nat) -> nat
    decreases k,
{
    if k == 0 {
        0
    } else {
        pop_count(x, (k - 1) as nat) + if bit(x, (k - 1) as u32) {
            1nat
        } else {
            0nat
        }
    }
}

fn take_least(h: &mut Vec<(u64, u32, usize)>) -> (r: (u64, u32, usize))
    requires
        old(h).len() > 0,
    ensures
        old(h)@.contains(r),
        final(h).len() == old(h).len() - 1,
        forall|k: int| 0 <= k < final(h).len() ==> old(h)@.contains(#[trigger] final(h)@[k]),
        exists|b: int| 0 <= b < old(h).len() && old(h)@[b] == r && final(h)@ == old(h)@.remove(b),
        r == old(h)@[least_in(old(h)@, old(h).len() as int)],
        final(h)@ == old(h)@.remove(least_in(old(h)@, old(h).len() as int)),
{
    let mut best: usize = 0;
    let mut i: usize = 1;
    while i < h.len()
        invariant
            1 <= i <= h.len(),
            best < h.len(),
            best == least_in(h@, i as int),
        decreases h.len() - i,
    {
        if h[i].0 < h[best].0 {
            best = i;
        }
        i = i + 1;
    }
    let ghost oh = h@;
    let r = h.remove(best);
    assert(oh[best as int] == r);
    assert forall|k: int| 0 <= k < h.len() implies oh.contains(#[trigger] h@[k]) by {
        if k < best {
            assert(h@[k] == oh[k]);
        } else {
            assert(h@[k] == oh[k + 1]);
        }
    }
    assert(h@ == oh.remove(best as int));
    r
}

fn find_key(t: &Vec<(BoxKey, u32, usize)>, s: BoxKey) -> (r: Option<usize>)
    ensures
        match r {
            Some(i) => i < t.len() && t@[i as int].0 == s,
            None => forall|i: int| 0 <= i < t.len() ==> (#[trigger] t@[i]).0 != s,
        },
        match r {
            Some(i) => box_key_from(t@, s, 0) == Some(i as int),
            None => box_key_from(t@, s, 0) is None,
        },
{
    let mut i: usize = 0;
    while i < t.len()
        invariant
            i <= t.len(),
            forall|j: int| 0 <= j < i ==> (#[trigger] t@[j]).0 != s,
            box_key_from(t@, s, 0) == box_key_from(t@, s, i as int),
        decreases t.len() - i,
    {
        let e = t[i].0;
        if e.0.0 == s.0.0 && e.0.1 == s.0.1 && e.1.0 == s.1.0 && e.1.1 == s.1.1 && e.2 == s.2 {
            return Some(i);
        }
        i = i + 1;
    }
    None
}

/// The number of set bits of `x`.
fn ones(x: u32) -> (r: u32)
    ensures
        r <= 32,
        r == pop_count(x, 32),
{
    let mut c: u32 = 0;
    let mut y = x;
    let mut k: u32 = 0;
    assert(x >> 0u32 == x) by (bit_vector);
    while k < 32
        invariant
            k <= 32,
            c <= k,
            c == pop_count(x, k as nat),
            y == x >> k,
        decreases 32 - k,
    {
        assert((y & 1 == 1) == bit(x, k)) by (bit_vector)
            requires
                y == x >> k,
                k < 32,
        ;
        assert(y >> 1 == x >> ((k + 1) as u32)) by (bit_vector)
            requires
                y == x >> k,
                k < 32,
        ;
        if y & 1 == 1 {
            c = c + 1;
        }
        y = y >> 1;
        k = k + 1;
    }
    c
}

/// The unvisited set after arriving at `p` (see `visit_rem`).
fn visit(ps: &Vec<(i64, i64)>, rem: u32, p: (i32, i32)) -> (r: u32)
    requires
        ps.len() < 32,
    ensures
        r == visit_rem(ps@, rem, p, 0),
{
    let mut i: usize = 0;
    while i < ps.len()
        invariant
            i <= ps.len(),
            ps.len() < 32,
            visit_rem(ps@, rem, p, 0) == visit_rem(ps@, rem, p, i as int),
        decreases ps.len() - i,
    {
        if ps[i].0 == p.0 as i64 && ps[i].1 == p.1 as i64 {
            return rem & !(1u32 << (i as u32));
        }
        i = i + 1;
    }
    rem
}

/// The state reached from `st` by the thrust `(dx, dy)`.
pub open spec fn box_succ(ps: Seq<(i64, i64)>, st: BoxKey, dx: int, dy: int) -> BoxKey {
    let nv = ((st.1.0 + dx) as i32, (st.1.1 + dy) as i32);
    let np = ((st.0.0 + nv.0) as i32, (st.0.1 + nv.1) as i32);
    (np, nv, visit_rem(ps, st.2, np, 0))
}

/// The search tries the thrust `(dx, dy)` from `st` after `dep` steps: a
/// keypad thrust that stays in the box, within 255 steps.
pub open spec fn box_move_ok(st: BoxKey, dep: int, dx: int, dy: int) -> bool {
    &&& -1 <= dx <= 1
    &&& -1 <= dy <= 1
    &&& -12 <= st.0.0 + st.1.0 + dx <= 12
    &&& -12 <= st.0.1 + st.1.1 + dy <= 12
    &&& dep < 255
}

/// The sum of the step counts in the table.
pub open spec fn dsum(t: Seq<(BoxKey, u32, usize)>) -> int
    decreases t.len(),
{
    if t.len() == 0 {
        0
    } else {
        dsum(t.drop_last()) + t.last().1
    }
}

proof fn lemma_dsum_push(t: Seq<(BoxKey, u32, usize)>, e: (BoxKey, u32, usize))
    ensures
        dsum(t.push(e)) == dsum(t) + e.1,
{
    assert(t.push(e).drop_last() =~= t);
}

proof fn lemma_dsum_update(t: Seq<(BoxKey, u32, usize)>, i: int, e: (BoxKey, u32, usize))
    requires
        0 <= i < t.len(),
    ensures
        dsum(t.update(i, e)) == dsum(t) - t[i].1 + e.1,
    decreases t.len(),
{
    if i == t.len() - 1 {
        assert(t.update(i, e).drop_last() =~= t.drop_last());
    } else {
        assert(t.update(i, e).drop_last() =~= t.drop_last().update(i, e));
        lemma_dsum_update(t.drop_last(), i, e);
    }
}

proof fn lemma_dsum_nonneg(t: Seq<(BoxKey, u32, usize)>)
    ensures
        dsum(t) >= 0,
    decreases t.len(),
{
    if t.len() > 0 {
        lemma_dsum_nonneg(t.drop_last());
    }
}

/// The number of states the search can hold: positions within 12, velocities
/// within 24, unvisited sets.
pub open spec fn box_states() -> int {
    25int * 25 * 49 * 49 * 0x1_0000_0000
}

/// A measure that every round of the search lowers.
pub open spec fn box_phi(h: Seq<(u64, u32, usize)>, t: Seq<(BoxKey, u32, usize)>) -> int {
    h.len() + 10 * dsum(t) + 2560 * (box_states() - t.len())
}

/// Records `key`, reached from entry `idx` in `ndep` steps, in the table:
/// in place of its entry `found` when it is there, else at the end.
#[verifier::rlimit(100)]
#[verifier::spinoff_prover]
fn record(
    ps: &Vec<(i64, i64)>,
    table: &mut Vec<(BoxKey, u32, usize)>,
    key: BoxKey,
    ndep: u32,
    idx: usize,
    found: Option<usize>,
    Ghost(start): Ghost<BoxKey>,
) -> (at: usize)
    requires
        box_table_ok(old(table)@, ps@, start),
        idx < old(table).len(),
        box_step(ps@, old(table)@[idx as int].0, key),
        old(table)@[idx as int].1 < ndep <= 255,
        in_box(key.0),
        -24 <= key.1.0 <= 24,
        -24 <= key.1.1 <= 24,
        match found {
            Some(i) => i < old(table).len() && old(table)@[i as int].0 == key && old(table)@[i as int].1 > ndep,
            None => forall|i: int| 0 <= i < old(table).len() ==> (#[trigger] old(table)@[i]).0 != key,
        },
    ensures
        box_table_ok(final(table)@, ps@, start),
        at < final(table).len(),
        final(table)@[at as int] == (key, ndep, idx),
        forall|j: int| 0 <= j < final(table).len() && j != at ==> j < old(table).len() && #[trigger] final(table)@[j] == old(table)@[j],
        found matches Some(i) ==> at == i,
        found is Some ==> at < old(table).len() && final(table).len() == old(table).len() && dsum(final(table)@) == dsum(old(table)@) - old(table)@[at as int].1 + ndep,
        found is None ==> at == old(table).len() && final(table).len() == old(table).len() + 1 && dsum(final(table)@) == dsum(old(table)@) + ndep,
{
    let ghost t0 = table@;
    let ghost st = t0[idx as int].0;
    let at = match found {
        Some(i) => {
            assert(i != 0 || t0[0].1 <= ndep);
            proof {
                lemma_dsum_update(t0, i as int, (key, ndep, idx));
            }
            table.set(i, (key, ndep, idx));
            assert forall|j: int| 1 <= j < table@.len() implies {
                &&& (#[trigger] table@[j]).2 < table@.len()
                &&& table@[table@[j].2 as int].1 < table@[j].1
                &&& box_step(ps@, table@[table@[j].2 as int].0, table@[j].0)
            } by {
                if j != i {
                    assert(table@[j] == t0[j]);
                    assert(t0[j].2 < t0.len());
                    if t0[j].2 == i {
                        assert(table@[table@[j].2 as int].0 == t0[i as int].0);
                    } else {
                        assert(table@[table@[j].2 as int] == t0[t0[j].2 as int]);
                    }
                } else {
                    assert(idx != i);
                    assert(table@[idx as int] == t0[idx as int]);
                }
            }
            assert forall|a: int, b: int| 0 <= a < b < table@.len() implies (#[trigger] table@[a]).0 != (
            #[trigger] table@[b]).0 by {
                assert(t0[a].0 != t0[b].0);
            }
            assert forall|j: int| 0 <= j < table@.len() implies in_box((#[trigger] table@[j]).0.0) && -24
                <= table@[j].0.1.0 <= 24 && -24 <= table@[j].0.1.1 <= 24 by {
                if j != i {
                    assert(table@[j] == t0[j]);
                }
            }
            i
        },
        None => {
            proof {
                lemma_dsum_push(t0, (key, ndep, idx));
            }
            table.push((key, ndep, idx));
            assert forall|j: int| 1 <= j < table@.len() implies {
                &&& (#[trigger] table@[j]).2 < table@.len()
                &&& table@[table@[j].2 as int].1 < table@[j].1
                &&& box_step(ps@, table@[table@[j].2 as int].0, table@[j].0)
            } by {
                if j < t0.len() {
                    assert(table@[j] == t0[j]);
                    assert(t0[j].2 < t0.len());
                    assert(table@[table@[j].2 as int] == t0[t0[j].2 as int]);
                } else {
                    assert(table@[idx as int] == t0[idx as int]);
                }
            }
            assert forall|a: int, b: int| 0 <= a < b < table@.len() implies (#[trigger] table@[a]).0 != (
            #[trigger] table@[b]).0 by {
                if b < t0.len() {
                    assert(t0[a].0 != t0[b].0);
                } else {
                    assert(t0[a].0 != key);
                }
            }
            assert forall|j: int| 0 <= j < table@.len() implies in_box((#[trigger] table@[j]).0.0) && -24
                <= table@[j].0.1.0 <= 24 && -24 <= table@[j].0.1.1 <= 24 by {
                if j < t0.len() {
                    assert(table@[j] == t0[j]);
                }
            }
            table.len() - 1
        },
    };
    at
}

/// The table and frontier after trying the thrust `(dx, dy)` from the
/// frontier entry `(dep, idx)` (see `expand`): unchanged when the position
/// reached leaves the box, `dep` is 255 or more, or the state reached is in
/// the table with no more steps; else it is recorded (in place of its
/// entry, or at the end) and put in the frontier with its points left plus
/// steps as priority.
#[verifier::opaque]
pub open spec fn box_try(
    ps: Seq<(i64, i64)>,
    t: Seq<(BoxKey, u32, usize)>,
    h: Seq<(u64, u32, usize)>,
    idx: int,
    dep: int,
    dx: int,
    dy: int,
) -> (Seq<(BoxKey, u32, usize)>, Seq<(u64, u32, usize)>) {
    let st = t[idx].0;
    let np = (st.0.0 + st.1.0 + dx, st.0.1 + st.1.1 + dy);
    if !in_box_at(np) || dep >= 255 {
        (t, h)
    } else {
        let key = box_succ(ps, st, dx, dy);
        let ndep = dep + 1;
        let found = box_key_from(t, key, 0);
        if found matches Some(i) && t[i].1 <= ndep {
            (t, h)
        } else {
            let e = (key, ndep as u32, idx as usize);
            let prio = (pop_count(key.2, 32) + ndep) as u64;
            match found {
                Some(i) => (t.update(i, e), h.push((prio, ndep as u32, i as usize))),
                None => (t.push(e), h.push((prio, ndep as u32, t.len() as usize))),
            }
        }
    }
}

/// The table and frontier after trying the first `k` of the nine thrusts,
/// in the order `(-1, -1)`, `(-1, 0)`, ..., `(1, 1)` (see `box_try`).
pub open spec fn box_expand_spec(
    ps: Seq<(i64, i64)>,
    t: Seq<(BoxKey, u32, usize)>,
    h: Seq<(u64, u32, usize)>,
    idx: int,
    dep: int,
    k: nat,
) -> (Seq<(BoxKey, u32, usize)>, Seq<(u64, u32, usize)>)
    decreases k,
{
    if k == 0 {
        (t, h)
    } else {
        let prev = box_expand_spec(ps, t, h, idx, dep, (k - 1) as nat);
        box_try(ps, prev.0, prev.1, idx, dep, (k - 1) / 3 - 1, (k - 1) % 3 - 1)
    }
}

/// How the search from table `t` and frontier `h` ends within `fuel`
/// rounds: each round takes the frontier entry of least priority (see
/// `least_in`); when its state has visited every point, the table and that
/// entry; else its nine thrusts are tried (see `box_expand_spec`). `None`
/// when the frontier runs empty.
#[verifier::opaque]
pub open spec fn box_outcome(
    ps: Seq<(i64, i64)>,
    t: Seq<(BoxKey, u32, usize)>,
    h: Seq<(u64, u32, usize)>,
    fuel: nat,
) -> Option<(Seq<(BoxKey, u32, usize)>, int)>
    decreases fuel,
{
    if h.len() == 0 || fuel == 0 {
        None
    } else {
        let b = least_in(h, h.len() as int);
        let top = h[b];
        if t[top.2 as int].0.2 == 0 {
            Some((t, top.2 as int))
        } else {
            let next = box_expand_spec(ps, t, h.remove(b), top.2 as int, top.1 as int, 9);
            box_outcome(ps, next.0, next.1, (fuel - 1) as nat)
        }
    }
}

proof fn lemma_box_outcome_empty(ps: Seq<(i64, i64)>, t: Seq<(BoxKey, u32, usize)>, h: Seq<(u64, u32, usize)>, fuel: nat)
    requires
        h.len() == 0,
    ensures
        box_outcome(ps, t, h, fuel) is None,
{
    reveal(box_outcome);
}

proof fn lemma_box_outcome_found(ps: Seq<(i64, i64)>, t: Seq<(BoxKey, u32, usize)>, h: Seq<(u64, u32, usize)>, fuel: nat)
    requires
        h.len() > 0,
        fuel > 0,
        t[h[least_in(h, h.len() as int)].2 as int].0.2 == 0,
    ensures
        box_outcome(ps, t, h, fuel) == Some((t, h[least_in(h, h.len() as int)].2 as int)),
{
    reveal(box_outcome);
}

proof fn lemma_box_outcome_round(
    ps: Seq<(i64, i64)>,
    t: Seq<(BoxKey, u32, usize)>,
    h: Seq<(u64, u32, usize)>,
    fuel: nat,
    t2: Seq<(BoxKey, u32, usize)>,
    h2: Seq<(u64, u32, usize)>,
)
    requires
        h.len() > 0,
        fuel > 0,
        t[h[least_in(h, h.len() as int)].2 as int].0.2 != 0,
        (t2, h2) == box_expand_spec(
            ps,
            t,
            h.remove(least_in(h, h.len() as int)),
            h[least_in(h, h.len() as int)].2 as int,
            h[least_in(h, h.len() as int)].1 as int,
            9,
        ),
    ensures
        box_outcome(ps, t, h, fuel) == box_outcome(ps, t2, h2, (fuel - 1) as nat),
{
    reveal(box_outcome);
}

/// How `solve15`'s search ends (see `box_outcome`): it starts from a table
/// holding the start state (at rest at the origin, every point left) with no
/// steps and a frontier holding that state, with fuel for as many rounds as
/// it can take.
#[verifier::opaque]
pub open spec fn box_search_outcome(ps: Seq<(i64, i64)>) -> Option<(Seq<(BoxKey, u32, usize)>, int)> {
    let start: BoxKey = ((0i32, 0i32), (0i32, 0i32), all_unvisited(ps.len() as nat));
    let t = seq![(start, 0u32, 0usize)];
    let h = seq![(pop_count(start.2, 32) as u64, 0u32, 0usize)];
    box_outcome(ps, t, h, box_phi(h, t) as nat)
}

/// The walk of `box_backtrack` from table entry `cur` back to the start,
/// putting in front of `suf` the thrust from each entry's origin to it.
pub open spec fn box_walk(t: Seq<(BoxKey, u32, usize)>, cur: int, fuel: nat, suf: Seq<(i32, i32)>) -> Seq<(i32, i32)>
    decreases fuel,
{
    if cur <= 0 || cur >= t.len() || fuel == 0 {
        suf
    } else {
        let st = t[cur].0;
        let pk = t[t[cur].2 as int].0;
        let acc = ((st.1.0 - pk.1.0) as i32, (st.1.1 - pk.1.1) as i32);
        box_walk(t, t[cur].2 as int, (fuel - 1) as nat, seq![acc] + suf)
    }
}

/// The thrusts from the start to table entry `g`, following the entries
/// each came from.
pub open spec fn box_path(t: Seq<(BoxKey, u32, usize)>, g: int) -> Seq<(i32, i32)> {
    box_walk(t, g, t[g].1 as nat, Seq::empty())
}

/// Tries the thrust `(dx, dy)` from the frontier entry `(dep, idx)`.
#[verifier::rlimit(100)]
#[verifier::spinoff_prover]
fn expand(
    ps: &Vec<(i64, i64)>,
    table: &mut Vec<(BoxKey, u32, usize)>,
    heap: &mut Vec<(u64, u32, usize)>,
    dep: u32,
    idx: usize,
    dx: i32,
    dy: i32,
    Ghost(start): Ghost<BoxKey>,
)
    requires
        ps.len() < 32,
        box_table_ok(old(table)@, ps@, start),
        box_frontier_ok(old(heap)@, old(table)@),
        idx < old(table).len(),
        old(table)@[idx as int].1 <= dep,
        -1 <= dx <= 1,
        -1 <= dy <= 1,
    ensures
        box_table_ok(final(table)@, ps@, start),
        box_frontier_ok(final(heap)@, final(table)@),
        final(table).len() >= old(table).len(),
        forall|j: int|
            0 <= j < old(table).len() ==> (#[trigger] final(table)@[j]).1 <= old(table)@[j].1 && final(table)@[j].0 == old(table)@[j].0,
        final(heap).len() >= old(heap).len(),
        forall|k: int| 0 <= k < old(heap).len() ==> #[trigger] final(heap)@[k] == old(heap)@[k],
        changes_queued(final(heap)@, final(table)@, old(table)@),
        box_phi(final(heap)@, final(table)@) <= box_phi(old(heap)@, old(table)@),
        final(table)@[idx as int] == old(table)@[idx as int],
        old(table)@[idx as int].1 == dep && box_move_ok(old(table)@[idx as int].0, dep as int, dx as int, dy as int)
            ==> exists|j: int|
            0 <= j < final(table).len() && (#[trigger] final(table)@[j]).0 == box_succ(
                ps@,
                old(table)@[idx as int].0,
                dx as int,
                dy as int,
            ) && final(table)@[j].1 <= dep + 1,
        (final(table)@, final(heap)@) == box_try(ps@, old(table)@, old(heap)@, idx as int, dep as int, dx as int, dy as int),
{
    proof {
        reveal(box_try);
    }
    let st = table[idx].0;
    let nv = (st.1.0 + dx, st.1.1 + dy);
    let npos = (st.0.0 + nv.0, st.0.1 + nv.1);
    if npos.0 < -12 || npos.0 > 12 || npos.1 < -12 || npos.1 > 12 {
        return;
    }
    if dep >= 255 {
        return;
    }
    let nrem = visit(ps, st.2, npos);
    let ndep = dep + 1;
    let key: BoxKey = (npos, nv, nrem);
    let found = find_key(table, key);
    assert(key == box_succ(ps@, st, dx as int, dy as int));
    match found {
        Some(i) => {
            if table[i].1 <= ndep {
                return;
            }
        },
        None => {},
    }
    let ghost t0 = table@;
    proof {
        lemma_dsum_nonneg(t0);
    }
    assert(box_step(ps@, st, key));
    let at = record(ps, table, key, ndep, idx, found, Ghost(start));
    assert(at != idx);
    let prio = ones(nrem) as u64 + ndep as u64;
    let ghost h0 = heap@;
    heap.push((prio, ndep, at));
    assert(table@[at as int].1 == ndep);
    assert(found is Some ==> t0[at as int].1 > ndep);
    assert forall|k: int| 0 <= k < heap@.len() implies (#[trigger] heap@[k]).2 < table@.len() && table@[heap@[
        k].2 as int].1 <= heap@[k].1 by {
        if k == h0.len() {
            assert(heap@[k] == (prio, ndep, at));
        }
        if k < h0.len() {
            assert(heap@[k] == h0[k]);
            assert(h0[k].2 < t0.len());
            assert(h0[k].2 as int != at as int ==> table@[h0[k].2 as int] == t0[h0[k].2 as int]);
            if h0[k].2 as int == at as int && found is Some {
                assert(table@[at as int].1 == ndep);
                assert(t0[at as int].1 <= h0[k].1);
            } else {
                assert(table@[h0[k].2 as int].1 == t0[h0[k].2 as int].1);
            }
        }
    }
    proof {
        let last = heap@.len() - 1;
        assert(heap@[last] == (prio, ndep, at));
        assert forall|j: int|
            0 <= j < table@.len() && (j >= t0.len() || table@[j].1 < t0[j].1) implies #[trigger] queued(heap@, j, table@[j].1 as int) by {
            if j != at {
                assert(table@[j] == t0[j]);
            }
            assert(heap@[last].2 == j);
        }
        assert(table@[at as int].0 == key);
        assert forall|k: int| 0 <= k < h0.len() implies #[trigger] heap@[k] == h0[k] by {}
        let e = (key, ndep, idx);
        match found {
            Some(i) => {
                assert(table@ =~= t0.update(i as int, e));
            },
            None => {
                assert(table@ =~= t0.push(e));
            },
        }
        assert(heap@ =~= h0.push((prio, ndep, at)));
    }
}

/// The keypad digits of the thrusts.
pub open spec fn move_keys(a: Seq<(i32, i32)>) -> Seq<char> {
    a.map_values(|m: (i32, i32)| key_digit(m.0 as int, m.1 as int))
}

/// From rest at the origin, the route `a` passes every point of `ps` after
/// some step.
pub open spec fn visits_all(a: Seq<(i32, i32)>, ps: Seq<(i64, i64)>) -> bool {
    forall|i: int| 0 <= i < ps.len() ==> passes_at((0, 0), (0, 0), a, #[trigger] ps[i])
}

proof fn lemma_prepend_take(acc: (i32, i32), suf: Seq<(i32, i32)>, k: int)
    requires
        0 <= k <= suf.len(),
    ensures
        (seq![acc] + suf).take(k + 1) =~= seq![acc] + suf.take(k),
        (seq![acc] + suf).take(k + 1).drop_first() =~= suf.take(k),
{
}

/// Some step of the thrusts `a` from `p` with velocity `v` ends at `q`.
pub open spec fn passes_at(p: (int, int), v: (int, int), a: Seq<(i32, i32)>, q: (i64, i64)) -> bool {
    exists|k: int| 1 <= k <= a.len() && #[trigger] run(p, v, a.take(k)).0 == (q.0 as int, q.1 as int)
}

/// The thrusts from the start to table entry `g`, following the entries
/// each came from.
fn box_backtrack(
    t: &Vec<(BoxKey, u32, usize)>,
    g: usize,
    ps: &Vec<(i64, i64)>,
    Ghost(start): Ghost<BoxKey>,
) -> (r: Vec<(i32, i32)>)
    requires
        ps.len() < 32,
        box_table_ok(t@, ps@, start),
        g < t.len(),
        t@[g as int].0.2 == 0,
    ensures
        thrusts_ok(r@),
        forall|i: int|
            0 <= i < ps@.len() && #[trigger] bit(start.2, i as u32) ==> passes_at(pt(start.0), pt(start.1), r@, ps@[i]),
        r@ == box_path(t@, g as int),
{
    let mut cur = g;
    let mut suf: Vec<(i32, i32)> = Vec::new();
    let ghost mut fuel: nat = t@[g as int].1 as nat;
    proof {
        assert forall|i: int| 0 <= i < ps@.len() implies !#[trigger] bit(t@[g as int].0.2, i as u32) by {
            lemma_bit_zero(i as u32);
        }
    }
    while cur != 0
        invariant
            ps.len() < 32,
            box_table_ok(t@, ps@, start),
            cur < t.len(),
            thrusts_ok(suf@),
            forall|i: int|
                0 <= i < ps@.len() && #[trigger] bit(t@[cur as int].0.2, i as u32) ==> passes_at(
                    pt(t@[cur as int].0.0),
                    pt(t@[cur as int].0.1),
                    suf@,
                    ps@[i],
                ),
            fuel >= t@[cur as int].1,
            box_path(t@, g as int) == box_walk(t@, cur as int, fuel, suf@),
        decreases t@[cur as int].1,
    {
        let st = t[cur].0;
        let p = t[cur].2;
        let pk = t[p].0;
        assert(box_step(ps@, pk, st));
        let acc = (st.1.0 - pk.1.0, st.1.1 - pk.1.1);
        let ghost old_suf = suf@;
        suf.insert(0, acc);
        proof {
            assert(suf@ =~= seq![acc] + old_suf);
            assert forall|i: int| 0 <= i < ps@.len() && #[trigger] bit(pk.2, i as u32) implies passes_at(
                pt(pk.0),
                pt(pk.1),
                suf@,
                ps@[i],
            ) by {
                lemma_visit_rem(ps@, pk.2, st.0, 0, i as u32);
                if bit(st.2, i as u32) {
                    assert(bit(t@[cur as int].0.2, i as u32));
                    assert(passes_at(pt(st.0), pt(st.1), old_suf, ps@[i]));
                    let k = choose|k: int|
                        1 <= k <= old_suf.len() && #[trigger] run(pt(st.0), pt(st.1), old_suf.take(k)).0 == (
                            ps@[i].0 as int,
                            ps@[i].1 as int,
                        );
                    lemma_prepend_take(acc, old_suf, k);
                    assert(run(pt(pk.0), pt(pk.1), suf@.take(k + 1)) == run(pt(st.0), pt(st.1), old_suf.take(k)));
                    assert(1 <= k + 1 <= suf@.len());
                } else {
                    lemma_prepend_take(acc, old_suf, 0);
                    assert(old_suf.take(0) =~= Seq::<(i32, i32)>::empty());
                    assert(run(pt(pk.0), pt(pk.1), suf@.take(1)) == run(pt(st.0), pt(st.1), old_suf.take(0)));
                    assert(run(pt(st.0), pt(st.1), old_suf.take(0)) == (pt(st.0), pt(st.1)));
                    assert(run(pt(pk.0), pt(pk.1), suf@.take(1)).0 == (ps@[i].0 as int, ps@[i].1 as int));
                }
            }
            assert forall|i: int| 0 <= i < suf@.len() implies -1 <= (#[trigger] suf@[i]).0 <= 1 && -1 <= suf@[i].1
                <= 1 by {
                if i > 0 {
                    assert(suf@[i] == old_suf[i - 1]);
                }
            }
        }
        proof {
            fuel = (fuel - 1) as nat;
        }
        cur = p;
    }
    suf
}

/// All `n` points unvisited.
pub open spec fn all_unvisited(n: nat) -> u32 {
    ((1u32 << (n as u32)) - 1) as u32
}

/// The keypad digits of the route the table leads along to the finished
/// entry `idx`.
fn finished_keys(
    table: &Vec<(BoxKey, u32, usize)>,
    idx: usize,
    ps: &Vec<(i64, i64)>,
    Ghost(start): Ghost<BoxKey>,
    nb: u32,
) -> (r: String)
    requires
        ps.len() < 32,
        nb == ps.len(),
        box_table_ok(table@, ps@, start),
        idx < table.len(),
        table@[idx as int].0.2 == 0,
        start == ((0i32, 0i32), (0i32, 0i32), ((1u32 << nb) - 1) as u32),
    ensures
        exists|a: Seq<(i32, i32)>| thrusts_ok(a) && r@ == move_keys(a) && visits_all(a, ps@),
        r@ == move_keys(box_path(table@, idx as int)),
{
    let a = box_backtrack(table, idx, ps, Ghost(start));
    let mut out = String::new();
    let mut k: usize = 0;
    while k < a.len()
        invariant
            k <= a.len(),
            thrusts_ok(a@),
            out@ == move_keys(a@.take(k as int)),
        decreases a.len() - k,
    {
        let m = a[k];
        let c = to_move((m.0 as i64, m.1 as i64));
        push_char(&mut out, c);
        k = k + 1;
        assert(out@ =~= move_keys(a@.take(k as int)));
    }
    proof {
        assert(a@.take(a.len() as int) =~= a@);
        assert forall|i: int| 0 <= i < ps@.len() implies passes_at((0, 0), (0, 0), a@, #[trigger] ps@[i]) by {
            lemma_bit_full(nb, i as u32);
            assert(bit(start.2, i as u32));
            assert(pt(start.0) == (0int, 0int) && pt(start.1) == (0int, 0int));
        }
        assert(visits_all(a@, ps@));
        assert(thrusts_ok(a@) && out@ == move_keys(a@) && visits_all(a@, ps@));
    }
    out
}

/// One round of `solve15`'s search: takes the frontier entry of least
/// priority; when its state has visited every point, its table entry; else
/// tries its nine thrusts.
fn box_round(
    ps: &Vec<(i64, i64)>,
    table: &mut Vec<(BoxKey, u32, usize)>,
    heap: &mut Vec<(u64, u32, usize)>,
    Ghost(start): Ghost<BoxKey>,
    Ghost(fuel): Ghost<nat>,
) -> (r: Option<usize>)
    requires
        ps.len() < 32,
        box_table_ok(old(table)@, ps@, start),
        box_frontier_ok(old(heap)@, old(table)@),
        box_settled(ps@, old(heap)@, old(table)@),
        box_goals(old(heap)@, old(table)@),
        old(heap).len() > 0,
        fuel >= box_phi(old(heap)@, old(table)@),
    ensures
        match r {
            Some(idx) => {
                &&& idx < final(table).len()
                &&& final(table)@ == old(table)@
                &&& final(table)@[idx as int].0.2 == 0
                &&& box_outcome(ps@, old(table)@, old(heap)@, fuel) == Some((old(table)@, idx as int))
            },
            None => {
                &&& box_table_ok(final(table)@, ps@, start)
                &&& box_frontier_ok(final(heap)@, final(table)@)
                &&& box_settled(ps@, final(heap)@, final(table)@)
                &&& box_goals(final(heap)@, final(table)@)
                &&& box_phi(final(heap)@, final(table)@) < box_phi(old(heap)@, old(table)@)
                &&& fuel > 0
                &&& box_outcome(ps@, old(table)@, old(heap)@, fuel) == box_outcome(
                    ps@,
                    final(table)@,
                    final(heap)@,
                    (fuel - 1) as nat,
                )
            },
        },
{
    proof {
        lemma_box_table_size(ps@, table@, start);
        lemma_dsum_nonneg(table@);
    }
    let ghost h0 = heap@;
    let ghost t0 = table@;
    let top = take_least(heap);
    let ghost b = least_in(h0, h0.len() as int);
    proof {
        lemma_least_in_range(h0, h0.len() as int);
    }
    let ghost h1 = heap@;
    proof {
        assert(h0[b].2 < table@.len());
        assert forall|k: int| 0 <= k < heap@.len() implies (#[trigger] heap@[k]).2 < table@.len() && table@[heap@[
            k].2 as int].1 <= heap@[k].1 by {
            if k < b {
                assert(heap@[k] == h0[k]);
            } else {
                assert(heap@[k] == h0[k + 1]);
            }
        }
    }
    let idx = top.2;
    let dep = top.1;
    if table[idx].0.2 == 0 {
        proof {
            lemma_box_outcome_found(ps@, t0, h0, fuel);
        }
        return Some(idx);
    }
    expand_all(ps, table, heap, dep, idx, Ghost(start));
    proof {
        lemma_box_outcome_round(ps@, t0, h0, fuel, table@, heap@);
        lemma_box_round(ps@, h0, t0, b, heap@, table@, idx as int, dep as int);
        assert(box_phi(h1, t0) == box_phi(h0, t0) - 1);
    }
    None
}

/// The keypad digits of the route to the finished table entry `idx`, as
/// `solve15` gives them.
fn found_route(
    table: &Vec<(BoxKey, u32, usize)>,
    idx: usize,
    ps: &Vec<(i64, i64)>,
    Ghost(start): Ghost<BoxKey>,
    nb: u32,
) -> (r: Option<String>)
    requires
        ps.len() < 32,
        nb == ps.len(),
        box_table_ok(table@, ps@, start),
        idx < table.len(),
        table@[idx as int].0.2 == 0,
        start == ((0i32, 0i32), (0i32, 0i32), ((1u32 << nb) - 1) as u32),
        box_search_outcome(ps@) == Some((table@, idx as int)),
    ensures
        r matches Some(s) ==> exists|a: Seq<(i32, i32)>| thrusts_ok(a) && s@ == move_keys(a) && visits_all(a, ps@),
        r is None ==> forall|a: Seq<(i32, i32)>|
            !#[trigger] box_route_ok(ps@, ((0i32, 0i32), (0i32, 0i32), all_unvisited(ps.len() as nat)), 0, a),
        r is None && ps@.no_duplicates() ==> no_short_route(ps@),
        match box_search_outcome(ps@) {
            Some((t, g)) => r matches Some(s) && s@ == move_keys(box_path(t, g)),
            None => r is None,
        },
{
    Some(finished_keys(table, idx, ps, Ghost(start), nb))
}

/// A short route from rest at the origin through every point of `ps`, found
/// by best-first search over (position, velocity, points left), least points
/// left plus steps taken first; only thrusts that keep the ship within 12 of
/// the origin, and at most 255 steps, are tried. The keypad digits of its
/// thrusts; `None` exactly when no such route finishes (see `box_route_ok`),
/// so, when no point is given twice, only when no route of at most 255 steps
/// within 12 of the origin passes them all.
#[verifier::rlimit(100)]
pub fn solve15(ps: Vec<(i64, i64)>) -> (r: Option<String>)
    requires
        ps.len() < 32,
    ensures
        r matches Some(s) ==> exists|a: Seq<(i32, i32)>| thrusts_ok(a) && s@ == move_keys(a) && visits_all(a, ps@),
        r is None ==> forall|a: Seq<(i32, i32)>|
            !#[trigger] box_route_ok(ps@, ((0i32, 0i32), (0i32, 0i32), all_unvisited(ps.len() as nat)), 0, a),
        r is None && ps@.no_duplicates() ==> no_short_route(ps@),
        match box_search_outcome(ps@) {
            Some((t, g)) => r matches Some(s) && s@ == move_keys(box_path(t, g)),
            None => r is None,
        },
{
    let n = ps.len();
    let nb = n as u32;
    assert(1u32 << nb >= 1) by (bit_vector)
        requires
            nb < 32,
    ;
    let full: u32 = (1u32 << nb) - 1;
    let start: BoxKey = ((0, 0), (0, 0), full);
    assert(start == ((0i32, 0i32), (0i32, 0i32), all_unvisited(ps.len() as nat)));
    let mut table: Vec<(BoxKey, u32, usize)> = Vec::new();
    table.push((start, 0, 0));
    let mut heap: Vec<(u64, u32, usize)> = Vec::new();
    heap.push((ones(full) as u64, 0, 0));
    proof {
        assert(heap@[0].2 == 0 && heap@[0].1 == table@[0].1);
        assert(table@ =~= seq![(start, 0u32, 0usize)]);
        assert(heap@ =~= seq![(pop_count(start.2, 32) as u64, 0u32, 0usize)]);
        assert(dsum(table@) == 0) by {
            assert(table@.drop_last() =~= Seq::<(BoxKey, u32, usize)>::empty());
            assert(dsum(Seq::<(BoxKey, u32, usize)>::empty()) == 0);
            assert(dsum(table@) == dsum(table@.drop_last()) + table@.last().1);
        }
    }
    let ghost mut fuel: nat = box_phi(heap@, table@) as nat;
    proof {
        reveal(box_search_outcome);
    }
    while heap.len() > 0
        invariant
            ps.len() == n,
            n < 32,
            box_table_ok(table@, ps@, start),
            box_frontier_ok(heap@, table@),
            box_settled(ps@, heap@, table@),
            box_goals(heap@, table@),
            start == ((0i32, 0i32), (0i32, 0i32), full),
            nb == n,
            full == ((1u32 << nb) - 1) as u32,
            fuel >= box_phi(heap@, table@),
            box_search_outcome(ps@) == box_outcome(ps@, table@, heap@, fuel),
        decreases box_phi(heap@, table@),
    {
        proof {
            lemma_box_table_size(ps@, table@, start);
            lemma_dsum_nonneg(table@);
        }
        match box_round(&ps, &mut table, &mut heap, Ghost(start), Ghost(fuel)) {
            Some(idx) => {
                return found_route(&table, idx, &ps, Ghost(start), nb);
            },
            None => {
                proof {
                    fuel = (fuel - 1) as nat;
                    lemma_box_table_size(ps@, table@, start);
                    lemma_dsum_nonneg(table@);
                }
            },
        }
    }
    proof {
        lemma_box_outcome_empty(ps@, table@, heap@, fuel);
        assert forall|j: int| 0 <= j < table@.len() implies box_expanded(ps@, table@, j) by {
            assert(table@[j].1 == table@[j].1);
        }
        assert forall|j: int| 0 <= j < table@.len() implies (#[trigger] table@[j]).0.2 != 0 by {}
        assert forall|a: Seq<(i32, i32)>|
            !#[trigger] box_route_ok(ps@, ((0i32, 0i32), (0i32, 0i32), all_unvisited(ps.len() as nat)), 0, a) by {
            lemma_no_box_route(ps@, table@, 0, 0, a);
        }
        lemma_no_short_route(ps@);
    }
    None
}

proof fn lemma_digit(x1: int, d1: int, x2: int, d2: int, b: int)
    requires
        0 <= d1 < b,
        0 <= d2 < b,
        x1 * b + d1 == x2 * b + d2,
    ensures
        x1 == x2,
        d1 == d2,
{
    assert(x1 == x2) by (nonlinear_arith)
        requires
            0 <= d1 < b,
            0 <= d2 < b,
            x1 * b + d1 == x2 * b + d2,
    ;
}

proof fn lemma_digit_range(x: int, m: int, d: int, b: int)
    requires
        0 <= x < m,
        0 <= d < b,
    ensures
        0 <= x * b + d < m * b,
{
    assert(0 <= x * b + d < m * b) by (nonlinear_arith)
        requires
            0 <= x < m,
            0 <= d < b,
    ;
}

/// The position of a state among all the states the search can hold.
pub open spec fn box_index(k: BoxKey) -> int {
    ((((k.0.0 + 12) * 25 + (k.0.1 + 12)) * 49 + (k.1.0 + 24)) * 49 + (k.1.1 + 24)) * 0x1_0000_0000 + k.2
}

/// A state the search can hold.
pub open spec fn box_key_ok(k: BoxKey) -> bool {
    in_box(k.0) && -24 <= k.1.0 <= 24 && -24 <= k.1.1 <= 24
}

proof fn lemma_box_index(k: BoxKey, l: BoxKey)
    requires
        box_key_ok(k),
        box_key_ok(l),
    ensures
        0 <= box_index(k) < box_states(),
        box_index(k) == box_index(l) ==> k == l,
{
    let a1 = k.0.0 + 12;
    let a2 = (a1 * 25 + (k.0.1 + 12));
    let a3 = a2 * 49 + (k.1.0 + 24);
    let a4 = a3 * 49 + (k.1.1 + 24);
    lemma_digit_range(a1, 25, k.0.1 + 12, 25);
    lemma_digit_range(a2, 625, k.1.0 + 24, 49);
    lemma_digit_range(a3, 625int * 49, k.1.1 + 24, 49);
    lemma_digit_range(a4, 625int * 49 * 49, k.2 as int, 0x1_0000_0000);
    if box_index(k) == box_index(l) {
        let b1 = l.0.0 + 12;
        let b2 = (b1 * 25 + (l.0.1 + 12));
        let b3 = b2 * 49 + (l.1.0 + 24);
        let b4 = b3 * 49 + (l.1.1 + 24);
        lemma_digit(a4, k.2 as int, b4, l.2 as int, 0x1_0000_0000);
        lemma_digit(a3, k.1.1 + 24, b3, l.1.1 + 24, 49);
        lemma_digit(a2, k.1.0 + 24, b2, l.1.0 + 24, 49);
        lemma_digit(a1, k.0.1 + 12, b1, l.0.1 + 12, 25);
    }
}

/// The table holds no more states than there are.
proof fn lemma_box_table_size(ps: Seq<(i64, i64)>, t: Seq<(BoxKey, u32, usize)>, start: BoxKey)
    requires
        box_table_ok(t, ps, start),
    ensures
        t.len() <= box_states(),
{
    let s = Seq::new(t.len(), |i: int| box_index(t[i].0));
    assert forall|i: int, j: int| 0 <= i < s.len() && 0 <= j < s.len() && i != j implies s[i] != s[j] by {
        assert(box_key_ok(t[i].0));
        assert(box_key_ok(t[j].0));
        lemma_box_index(t[i].0, t[j].0);
        if i < j {
            assert(t[i].0 != t[j].0);
        } else {
            assert(t[j].0 != t[i].0);
        }
    }
    assert(s.no_duplicates());
    s.unique_seq_to_set();
    lemma_int_range(0, box_states());
    assert forall|x: int| s.to_set().contains(x) implies set_int_range(0, box_states()).contains(x) by {
        assert(s.contains(x));
        let i = choose|i: int| 0 <= i < s.len() && s[i] == x;
        assert(box_key_ok(t[i].0));
        lemma_box_index(t[i].0, t[i].0);
    }
    lemma_len_subset(s.to_set(), set_int_range(0, box_states()));
}

/// From table entry `i` every thrust the search tries leads to a state in
/// the table with at most one more step.
pub open spec fn box_expanded(ps: Seq<(i64, i64)>, t: Seq<(BoxKey, u32, usize)>, i: int) -> bool {
    forall|dx: int, dy: int|
        #![trigger box_move_ok(t[i].0, t[i].1 as int, dx, dy)]
        box_move_ok(t[i].0, t[i].1 as int, dx, dy) ==> exists|j: int|
            0 <= j < t.len() && (#[trigger] t[j]).0 == box_succ(ps, t[i].0, dx, dy) && t[j].1 <= t[i].1 + 1
}

/// Every table entry is still to be expanded at its step count (a frontier
/// entry names it with that count) or has been expanded.
pub open spec fn box_settled(ps: Seq<(i64, i64)>, h: Seq<(u64, u32, usize)>, t: Seq<(BoxKey, u32, usize)>) -> bool {
    forall|i: int|
        0 <= i < t.len() ==> (exists|k: int| 0 <= k < h.len() && (#[trigger] h[k]).2 == i && h[k].1 == (
        #[trigger] t[i]).1) || box_expanded(ps, t, i)
}

/// Every table entry that has visited every point is in the frontier.
pub open spec fn box_goals(h: Seq<(u64, u32, usize)>, t: Seq<(BoxKey, u32, usize)>) -> bool {
    forall|i: int| 0 <= i < t.len() && (#[trigger] t[i]).0.2 == 0 ==> exists|k: int| 0 <= k < h.len() && (#[trigger] h[k]).2 == i
}

/// The search, run from `st` after `d` steps with the thrusts `a`, meets a
/// state that has visited every point, trying each thrust on the way.
pub open spec fn box_route_ok(ps: Seq<(i64, i64)>, st: BoxKey, d: int, a: Seq<(i32, i32)>) -> bool
    decreases a.len(),
{
    st.2 == 0 || (a.len() > 0 && box_move_ok(st, d, a[0].0 as int, a[0].1 as int) && box_route_ok(
        ps,
        box_succ(ps, st, a[0].0 as int, a[0].1 as int),
        d + 1,
        a.drop_first(),
    ))
}

/// With every entry expanded and none finished, no route from a table entry
/// finishes.
proof fn lemma_no_box_route(ps: Seq<(i64, i64)>, t: Seq<(BoxKey, u32, usize)>, i: int, d: int, a: Seq<(i32, i32)>)
    requires
        0 <= i < t.len(),
        t[i].1 <= d,
        forall|j: int| 0 <= j < t.len() ==> box_expanded(ps, t, j),
        forall|j: int| 0 <= j < t.len() ==> (#[trigger] t[j]).0.2 != 0,
    ensures
        !box_route_ok(ps, t[i].0, d, a),
    decreases a.len(),
{
    assert(t[i].0.2 != 0);
    if a.len() > 0 && box_move_ok(t[i].0, d, a[0].0 as int, a[0].1 as int) {
        let dx = a[0].0 as int;
        let dy = a[0].1 as int;
        assert(box_move_ok(t[i].0, t[i].1 as int, dx, dy));
        assert(box_expanded(ps, t, i));
        let j = choose|j: int|
            0 <= j < t.len() && (#[trigger] t[j]).0 == box_succ(ps, t[i].0, dx, dy) && t[j].1 <= t[i].1 + 1;
        lemma_no_box_route(ps, t, j, d + 1, a.drop_first());
    }
}

/// The table `t` keeps the states of `t0` with no more steps.
pub open spec fn kept(t0: Seq<(BoxKey, u32, usize)>, t: Seq<(BoxKey, u32, usize)>) -> bool {
    &&& t.len() >= t0.len()
    &&& forall|j: int| 0 <= j < t0.len() ==> (#[trigger] t[j]).0 == t0[j].0 && t[j].1 <= t0[j].1
}

/// The frontier `h` starts with `h0`.
pub open spec fn extends(h0: Seq<(u64, u32, usize)>, h: Seq<(u64, u32, usize)>) -> bool {
    &&& h.len() >= h0.len()
    &&& forall|k: int| 0 <= k < h0.len() ==> #[trigger] h[k] == h0[k]
}

/// Every entry of `t` that is new or has fewer steps than in `t0` is named
/// in `h` with its step count.
pub open spec fn changes_queued(h: Seq<(u64, u32, usize)>, t: Seq<(BoxKey, u32, usize)>, t0: Seq<(BoxKey, u32, usize)>) -> bool {
    forall|j: int|
        0 <= j < t.len() && (j >= t0.len() || t[j].1 < t0[j].1) ==> #[trigger] queued(h, j, t[j].1 as int)
}

/// The frontier `h` names table entry `j` with `d` steps.
pub open spec fn queued(h: Seq<(u64, u32, usize)>, j: int, d: int) -> bool {
    exists|k: int| 0 <= k < h.len() && (#[trigger] h[k]).2 == j && h[k].1 == d
}

/// The thrusts before `(dx, dy)` from `st` after `dep` steps have led into
/// the table with at most one more step.
pub open spec fn tried_before(ps: Seq<(i64, i64)>, t: Seq<(BoxKey, u32, usize)>, st: BoxKey, dep: int, dx: int, dy: int) -> bool {
    forall|ddx: int, ddy: int|
        #![trigger box_move_ok(st, dep, ddx, ddy)]
        (ddx < dx || (ddx == dx && ddy < dy)) && box_move_ok(st, dep, ddx, ddy) ==> exists|j: int|
            0 <= j < t.len() && (#[trigger] t[j]).0 == box_succ(ps, st, ddx, ddy) && t[j].1 <= dep + 1
}

proof fn lemma_try_step(
    ps: Seq<(i64, i64)>,
    t0: Seq<(BoxKey, u32, usize)>,
    h1: Seq<(u64, u32, usize)>,
    ta: Seq<(BoxKey, u32, usize)>,
    ha: Seq<(u64, u32, usize)>,
    tb: Seq<(BoxKey, u32, usize)>,
    hb: Seq<(u64, u32, usize)>,
    st: BoxKey,
    dep: int,
    dx: int,
    dy: int,
    exact: bool,
)
    requires
        kept(t0, ta),
        extends(h1, ha),
        changes_queued(ha, ta, t0),
        exact ==> tried_before(ps, ta, st, dep, dx, dy),
        tb.len() >= ta.len(),
        forall|j: int| 0 <= j < ta.len() ==> (#[trigger] tb[j]).1 <= ta[j].1 && tb[j].0 == ta[j].0,
        hb.len() >= ha.len(),
        forall|k: int| 0 <= k < ha.len() ==> #[trigger] hb[k] == ha[k],
        changes_queued(hb, tb, ta),
        exact && box_move_ok(st, dep, dx, dy) ==> exists|j: int|
            0 <= j < tb.len() && (#[trigger] tb[j]).0 == box_succ(ps, st, dx, dy) && tb[j].1 <= dep + 1,
    ensures
        kept(t0, tb),
        extends(h1, hb),
        changes_queued(hb, tb, t0),
        exact ==> tried_before(ps, tb, st, dep, dx, dy + 1),
{
    assert forall|j: int|
        0 <= j < tb.len() && (j >= t0.len() || tb[j].1 < t0[j].1) implies #[trigger] queued(hb, j, tb[j].1 as int) by {
        if j < ta.len() && tb[j].1 == ta[j].1 {
            assert(queued(ha, j, ta[j].1 as int));
            let k = choose|k: int| 0 <= k < ha.len() && (#[trigger] ha[k]).2 == j && ha[k].1 == ta[j].1 as int;
            assert(hb[k] == ha[k]);
        } else {
            assert(queued(hb, j, tb[j].1 as int));
        }
    }
    assert(changes_queued(hb, tb, t0));
    if exact {
    assert forall|ddx: int, ddy: int| #![trigger box_move_ok(st, dep, ddx, ddy)]
        (ddx < dx || (ddx == dx && ddy < dy + 1)) && box_move_ok(st, dep, ddx, ddy) implies exists|j: int|
        0 <= j < tb.len() && (#[trigger] tb[j]).0 == box_succ(ps, st, ddx, ddy) && tb[j].1 <= dep + 1 by {
        if ddx == dx && ddy == dy {
            let j = choose|j: int| 0 <= j < tb.len() && (#[trigger] tb[j]).0 == box_succ(ps, st, dx, dy) && tb[j].1 <= dep + 1;
            assert(tb[j].0 == box_succ(ps, st, ddx, ddy));
        } else {
            let j = choose|j: int| 0 <= j < ta.len() && (#[trigger] ta[j]).0 == box_succ(ps, st, ddx, ddy) && ta[j].1 <= dep + 1;
            assert(tb[j].0 == ta[j].0);
        }
    }
    }
}

proof fn lemma_next_row(ps: Seq<(i64, i64)>, t: Seq<(BoxKey, u32, usize)>, st: BoxKey, dep: int, dx: int)
    requires
        tried_before(ps, t, st, dep, dx, 2),
    ensures
        tried_before(ps, t, st, dep, dx + 1, -1),
{
    assert forall|ddx: int, ddy: int| #![trigger box_move_ok(st, dep, ddx, ddy)]
        (ddx < dx + 1 || (ddx == dx + 1 && ddy < -1)) && box_move_ok(st, dep, ddx, ddy) implies exists|j: int|
        0 <= j < t.len() && (#[trigger] t[j]).0 == box_succ(ps, st, ddx, ddy) && t[j].1 <= dep + 1 by {
        assert(ddx < dx || (ddx == dx && ddy < 2));
        assert(box_succ(ps, st, ddx, ddy) == box_succ(ps, st, ddx, ddy));
    }
    assert(tried_before(ps, t, st, dep, dx + 1, -1));
}

proof fn lemma_tried_all(ps: Seq<(i64, i64)>, t: Seq<(BoxKey, u32, usize)>, i: int)
    requires
        0 <= i < t.len(),
        tried_before(ps, t, t[i].0, t[i].1 as int, 2, -1),
    ensures
        box_expanded(ps, t, i),
{
    assert forall|dx: int, dy: int| #![trigger box_move_ok(t[i].0, t[i].1 as int, dx, dy)] box_move_ok(t[i].0, t[i].1 as int, dx, dy) implies exists|j: int|
        0 <= j < t.len() && (#[trigger] t[j]).0 == box_succ(ps, t[i].0, dx, dy) && t[j].1 <= t[i].1 + 1 by {
        assert(dx < 2);
        assert(box_succ(ps, t[i].0, dx, dy) == box_succ(ps, t[i].0, dx, dy));
    }
}

/// Tries all nine thrusts from the frontier entry `(dep, idx)`.
#[verifier::rlimit(100)]
#[verifier::spinoff_prover]
fn expand_all(
    ps: &Vec<(i64, i64)>,
    table: &mut Vec<(BoxKey, u32, usize)>,
    heap: &mut Vec<(u64, u32, usize)>,
    dep: u32,
    idx: usize,
    Ghost(start): Ghost<BoxKey>,
)
    requires
        ps.len() < 32,
        box_table_ok(old(table)@, ps@, start),
        box_frontier_ok(old(heap)@, old(table)@),
        idx < old(table).len(),
        old(table)@[idx as int].1 <= dep,
    ensures
        box_table_ok(final(table)@, ps@, start),
        box_frontier_ok(final(heap)@, final(table)@),
        final(table)@[idx as int] == old(table)@[idx as int],
        kept(old(table)@, final(table)@),
        extends(old(heap)@, final(heap)@),
        changes_queued(final(heap)@, final(table)@, old(table)@),
        box_phi(final(heap)@, final(table)@) <= box_phi(old(heap)@, old(table)@),
        dep == old(table)@[idx as int].1 ==> box_expanded(ps@, final(table)@, idx as int),
        (final(table)@, final(heap)@) == box_expand_spec(ps@, old(table)@, old(heap)@, idx as int, dep as int, 9),
{
    let ghost t0 = table@;
    let ghost h1 = heap@;
    let ghost st = t0[idx as int].0;
    proof {
                    }
    let mut dx: i32 = -1;
    while dx <= 1
        invariant
            -1 <= dx <= 2,
            ps.len() < 32,
            box_table_ok(table@, ps@, start),
            box_frontier_ok(heap@, table@),
            0 <= idx < t0.len(),
            st == t0[idx as int].0,
            dep >= t0[idx as int].1,
            table@[idx as int] == t0[idx as int],
            table.len() >= t0.len(),
            kept(t0, table@),
            extends(h1, heap@),
            changes_queued(heap@, table@, t0),
            box_phi(heap@, table@) <= box_phi(h1, t0),
            dep == t0[idx as int].1 ==> tried_before(ps@, table@, st, dep as int, dx as int, -1),
            (table@, heap@) == box_expand_spec(ps@, t0, h1, idx as int, dep as int, ((dx + 1) * 3) as nat),
        decreases 2 - dx,
    {
        let mut dy: i32 = -1;
        while dy <= 1
            invariant
                -1 <= dx <= 1,
                -1 <= dy <= 2,
                ps.len() < 32,
                box_table_ok(table@, ps@, start),
                box_frontier_ok(heap@, table@),
                0 <= idx < t0.len(),
                st == t0[idx as int].0,
                dep >= t0[idx as int].1,
                table@[idx as int] == t0[idx as int],
                table.len() >= t0.len(),
                kept(t0, table@),
                extends(h1, heap@),
                changes_queued(heap@, table@, t0),
                box_phi(heap@, table@) <= box_phi(h1, t0),
                dep == t0[idx as int].1 ==> tried_before(ps@, table@, st, dep as int, dx as int, dy as int),
                (table@, heap@) == box_expand_spec(ps@, t0, h1, idx as int, dep as int, ((dx + 1) * 3 + dy + 1) as nat),
            decreases 2 - dy,
        {
            let ghost ta = table@;
            let ghost ha = heap@;
            expand(ps, table, heap, dep, idx, dx, dy, Ghost(start));
            proof {
                let k = ((dx + 1) * 3 + dy + 1) as nat;
                assert((k + 1 - 1) / 3 - 1 == dx && (k + 1 - 1) % 3 - 1 == dy);
            }
            proof {
                lemma_try_step(ps@, t0, h1, ta, ha, table@, heap@, st, dep as int, dx as int, dy as int, dep == t0[idx as int].1);
            }
            dy = dy + 1;
        }
        proof {
            if dep == t0[idx as int].1 {
                lemma_next_row(ps@, table@, st, dep as int, dx as int);
            }
        }
        dx = dx + 1;
    }
    proof {
        if dep == t0[idx as int].1 {
            lemma_tried_all(ps@, table@, idx as int);
        }
    }
}

/// After taking frontier entry `b` (for table entry `idx`, not finished) and
/// expanding it, every entry is again settled and every finished entry is in
/// the frontier.
proof fn lemma_box_round(
    ps: Seq<(i64, i64)>,
    h0: Seq<(u64, u32, usize)>,
    t0: Seq<(BoxKey, u32, usize)>,
    b: int,
    h: Seq<(u64, u32, usize)>,
    t: Seq<(BoxKey, u32, usize)>,
    idx: int,
    dep: int,
)
    requires
        box_settled(ps, h0, t0),
        box_goals(h0, t0),
        0 <= b < h0.len(),
        h0[b].2 == idx,
        h0[b].1 == dep,
        0 <= idx < t0.len(),
        t0[idx].0.2 != 0,
        extends(h0.remove(b), h),
        kept(t0, t),
        changes_queued(h, t, t0),
        t[idx] == t0[idx],
        dep == t0[idx].1 ==> box_expanded(ps, t, idx),
    ensures
        box_settled(ps, h, t),
        box_goals(h, t),
{
    let hr = h0.remove(b);
    assert forall|k: int| #![trigger h0[k]] 0 <= k < h0.len() && k != b implies exists|q: int|
        0 <= q < h.len() && #[trigger] h[q] == h0[k] by {
        if k < b {
            assert(h[k] == hr[k]);
        } else {
            assert(h[k - 1] == hr[k - 1]);
        }
    }
    assert forall|i: int| 0 <= i < t.len() implies (exists|k: int| 0 <= k < h.len() && (#[trigger] h[k]).2 == i
        && h[k].1 == (#[trigger] t[i]).1) || box_expanded(ps, t, i) by {
        if i >= t0.len() || t[i].1 < t0[i].1 {
            assert(queued(h, i, t[i].1 as int));
            let k = choose|k: int| 0 <= k < h.len() && (#[trigger] h[k]).2 == i && h[k].1 == t[i].1 as int;
            assert(h[k].2 == i && h[k].1 == t[i].1);
        } else {
            assert(t[i].0 == t0[i].0 && t[i].1 == t0[i].1);
            if i == idx && dep == t0[idx].1 {
            } else if exists|k: int| 0 <= k < h0.len() && (#[trigger] h0[k]).2 == i && h0[k].1 == t0[i].1 {
                let k = choose|k: int| 0 <= k < h0.len() && (#[trigger] h0[k]).2 == i && h0[k].1 == t0[i].1;
                assert(k != b);
                let q = choose|q: int| 0 <= q < h.len() && #[trigger] h[q] == h0[k];
                assert(h[q].2 == i && h[q].1 == t[i].1);
            } else {
                assert(box_expanded(ps, t0, i));
                assert forall|dx: int, dy: int| #![trigger box_move_ok(t[i].0, t[i].1 as int, dx, dy)] box_move_ok(t[i].0, t[i].1 as int, dx, dy) implies exists|j: int|
                    0 <= j < t.len() && (#[trigger] t[j]).0 == box_succ(ps, t[i].0, dx, dy) && t[j].1
                        <= t[i].1 + 1 by {
                    let j = choose|j: int|
                        0 <= j < t0.len() && (#[trigger] t0[j]).0 == box_succ(ps, t0[i].0, dx, dy)
                            && t0[j].1 <= t0[i].1 + 1;
                    assert(t[j].0 == t0[j].0);
                }
            }
        }
    }
    assert forall|i: int| 0 <= i < t.len() && (#[trigger] t[i]).0.2 == 0 implies exists|k: int|
        0 <= k < h.len() && (#[trigger] h[k]).2 == i by {
        if i >= t0.len() || t[i].1 < t0[i].1 {
            assert(queued(h, i, t[i].1 as int));
            let k = choose|k: int| 0 <= k < h.len() && (#[trigger] h[k]).2 == i && h[k].1 == t[i].1 as int;
            assert(h[k].2 == i);
        } else {
            assert(t[i].0 == t0[i].0);
            let k = choose|k: int| 0 <= k < h0.len() && (#[trigger] h0[k]).2 == i;
            assert(i != idx);
            assert(k != b);
            let q = choose|q: int| 0 <= q < h.len() && #[trigger] h[q] == h0[k];
        }
    }
}

/// A nonzero set has a point in it.
proof fn lemma_some_bit(rem: u32)
    requires
        rem != 0,
    ensures
        exists|i: u32| i < 32 && #[trigger] bit(rem, i),
{
    assert(bit(rem, 0) || bit(rem, 1) || bit(rem, 2) || bit(rem, 3) || bit(rem, 4) || bit(rem, 5) || bit(rem, 6) || bit(rem, 7) || bit(rem, 8) || bit(rem, 9) || bit(rem, 10) || bit(rem, 11) || bit(rem, 12) || bit(rem, 13) || bit(rem, 14) || bit(rem, 15) || bit(rem, 16) || bit(rem, 17) || bit(rem, 18) || bit(rem, 19) || bit(rem, 20) || bit(rem, 21) || bit(rem, 22) || bit(rem, 23) || bit(rem, 24) || bit(rem, 25) || bit(rem, 26) || bit(rem, 27) || bit(rem, 28) || bit(rem, 29) || bit(rem, 30) || bit(rem, 31)) by (bit_vector)
        requires
            rem != 0,
    ;
}

/// The full set of `n` points holds none from `n` on.
proof fn lemma_bit_above_full(n: u32, i: u32)
    requires
        n < 32,
        n <= i < 32,
    ensures
        !bit(((1u32 << n) - 1) as u32, i),
{
    assert((((1u32 << n) - 1) as u32 >> i) & 1 != 1) by (bit_vector)
        requires
            n < 32,
            n <= i < 32,
    ;
}

/// Arriving at the position of point `i`, where no other point lies, clears
/// its bit.
proof fn lemma_visit_clears(ps: Seq<(i64, i64)>, rem: u32, p: (i32, i32), k: int, i: int)
    requires
        ps.len() < 32,
        ps.no_duplicates(),
        0 <= k <= i < ps.len(),
        ps[i].0 == p.0 && ps[i].1 == p.1,
    ensures
        !bit(visit_rem(ps, rem, p, k), i as u32),
    decreases ps.len() - k,
{
    if ps[k].0 == p.0 && ps[k].1 == p.1 {
        assert(ps[k] == ps[i]);
        assert(k == i);
        lemma_bit_clear(rem, k as u32, i as u32);
    } else {
        lemma_visit_clears(ps, rem, p, k + 1, i);
    }
}

/// Within 12 of the origin on both axes.
pub open spec fn in_box_at(q: (int, int)) -> bool {
    -12 <= q.0 <= 12 && -12 <= q.1 <= 12
}

/// After each step of the thrusts `a` from rest at the origin, the ship is
/// within 12 of the origin.
pub open spec fn stays_in_box(a: Seq<(i32, i32)>) -> bool {
    forall|k: int| 1 <= k <= a.len() ==> in_box_at(#[trigger] run((0, 0), (0, 0), a.take(k)).0)
}

proof fn lemma_run_take_step(p: (int, int), v: (int, int), a: Seq<(i32, i32)>, k: int)
    requires
        1 <= k <= a.len(),
    ensures
        run(p, v, a.take(k)) == run(
            (p.0 + v.0 + a[0].0, p.1 + v.1 + a[0].1),
            (v.0 + a[0].0, v.1 + a[0].1),
            a.drop_first().take(k - 1),
        ),
{
    assert(a.take(k).drop_first() =~= a.drop_first().take(k - 1));
    assert(a.take(k)[0] == a[0]);
}

/// From a state in the box, thrusts that keep the ship in the box for at
/// most `255 - d` steps and pass every point still to visit (no point given
/// twice) lead the search to a finished state.
proof fn lemma_route_finishes(ps: Seq<(i64, i64)>, st: BoxKey, d: int, a: Seq<(i32, i32)>)
    requires
        ps.len() < 32,
        ps.no_duplicates(),
        thrusts_ok(a),
        0 <= d,
        d + a.len() <= 255,
        in_box(st.0),
        forall|k: int| 1 <= k <= a.len() ==> in_box_at(#[trigger] run(pt(st.0), pt(st.1), a.take(k)).0),
        forall|i: u32|
            i < 32 && #[trigger] bit(st.2, i) ==> i < ps.len() && passes_at(pt(st.0), pt(st.1), a, ps[i as int]),
    ensures
        box_route_ok(ps, st, d, a),
    decreases a.len(),
{
    if st.2 != 0 {
        lemma_some_bit(st.2);
        let i0 = choose|i: u32| i < 32 && #[trigger] bit(st.2, i);
        assert(passes_at(pt(st.0), pt(st.1), a, ps[i0 as int]));
        assert(a.len() > 0);
        let dx = a[0].0 as int;
        let dy = a[0].1 as int;
        assert(-1 <= a[0].0 <= 1 && -1 <= a[0].1 <= 1);
        lemma_run_take_step(pt(st.0), pt(st.1), a, 1);
        assert(a.drop_first().take(0) =~= Seq::<(i32, i32)>::empty());
        let q = (st.0.0 + st.1.0 + dx, st.0.1 + st.1.1 + dy);
        assert(in_box_at(run(pt(st.0), pt(st.1), a.take(1)).0));
        assert(in_box_at(q));
        assert(box_move_ok(st, d, dx, dy));
        let nx = box_succ(ps, st, dx, dy);
        assert(pt(nx.0) == q);
        assert(pt(nx.1) == (st.1.0 + dx, st.1.1 + dy));
        let b = a.drop_first();
        assert forall|k: int| 1 <= k <= b.len() implies in_box_at(#[trigger] run(pt(nx.0), pt(nx.1), b.take(k)).0) by {
            lemma_run_take_step(pt(st.0), pt(st.1), a, k + 1);
            assert(in_box_at(run(pt(st.0), pt(st.1), a.take(k + 1)).0));
        }
        assert forall|i: u32| i < 32 && #[trigger] bit(nx.2, i) implies i < ps.len() && passes_at(
            pt(nx.0),
            pt(nx.1),
            b,
            ps[i as int],
        ) by {
            if ps.len() <= i {
                lemma_visit_rem_bits(ps, st.2, nx.0, i);
            } else {
                lemma_visit_rem(ps, st.2, nx.0, 0, i);
                assert(bit(st.2, i));
                assert(passes_at(pt(st.0), pt(st.1), a, ps[i as int]));
                let k = choose|k: int|
                    1 <= k <= a.len() && #[trigger] run(pt(st.0), pt(st.1), a.take(k)).0 == (
                        ps[i as int].0 as int,
                        ps[i as int].1 as int,
                    );
                lemma_run_take_step(pt(st.0), pt(st.1), a, k);
                if k == 1 {
                    assert(ps[i as int].0 == nx.0.0 && ps[i as int].1 == nx.0.1);
                    lemma_visit_clears(ps, st.2, nx.0, 0, i as int);
                } else {
                    assert(run(pt(nx.0), pt(nx.1), b.take(k - 1)).0 == (ps[i as int].0 as int, ps[i as int].1 as int));
                }
            }
        }
        assert forall|j: int| 0 <= j < b.len() implies -1 <= (#[trigger] b[j]).0 <= 1 && -1 <= b[j].1 <= 1 by {
            assert(b[j] == a[j + 1]);
        }
        lemma_route_finishes(ps, nx, d + 1, b);
    }
}

/// Arriving anywhere keeps the set within the first `ps.len()` bits.
proof fn lemma_visit_rem_bits(ps: Seq<(i64, i64)>, rem: u32, p: (i32, i32), i: u32)
    requires
        ps.len() < 32,
        ps.len() <= i < 32,
        !bit(rem, i),
    ensures
        !bit(visit_rem(ps, rem, p, 0), i),
{
    lemma_visit_rem_bits_from(ps, rem, p, 0, i);
}

proof fn lemma_visit_rem_bits_from(ps: Seq<(i64, i64)>, rem: u32, p: (i32, i32), k: int, i: u32)
    requires
        ps.len() < 32,
        ps.len() <= i < 32,
        0 <= k,
        !bit(rem, i),
    ensures
        !bit(visit_rem(ps, rem, p, k), i),
    decreases ps.len() - k,
{
    if k < ps.len() {
        if ps[k].0 == p.0 && ps[k].1 == p.1 {
            lemma_bit_clear(rem, k as u32, i);
        } else {
            lemma_visit_rem_bits_from(ps, rem, p, k + 1, i);
        }
    }
}

/// No route from rest at the origin of at most 255 keypad thrusts that keeps
/// the ship within 12 of the origin passes every point of `ps`.
pub open spec fn no_short_route(ps: Seq<(i64, i64)>) -> bool {
    forall|a: Seq<(i32, i32)>| !(thrusts_ok(a) && a.len() <= 255 && stays_in_box(a) && #[trigger] visits_all(a, ps))
}

/// With no finishing route for the search, no route of at most 255 keypad
/// thrusts within 12 of the origin passes every point (none given twice).
proof fn lemma_no_short_route(ps: Seq<(i64, i64)>)
    requires
        ps.len() < 32,
        forall|a: Seq<(i32, i32)>|
            !#[trigger] box_route_ok(ps, ((0i32, 0i32), (0i32, 0i32), all_unvisited(ps.len() as nat)), 0, a),
    ensures
        ps.no_duplicates() ==> no_short_route(ps),
{
    if ps.no_duplicates() {
        assert forall|a: Seq<(i32, i32)>|
            !(thrusts_ok(a) && a.len() <= 255 && stays_in_box(a) && #[trigger] visits_all(a, ps)) by {
            if thrusts_ok(a) && a.len() <= 255 && stays_in_box(a) && visits_all(a, ps) {
                law_box_route_found(ps, a);
            }
        }
    }
}

/// Every route from rest at the origin of at most 255 keypad thrusts that
/// keeps the ship within 12 of the origin and passes every point of `ps`
/// (no point given twice) is one the search meets (`box_route_ok`): so when
/// `solve15` finds none, no such route exists.
pub proof fn law_box_route_found(ps: Seq<(i64, i64)>, a: Seq<(i32, i32)>)
    requires
        ps.len() < 32,
        ps.no_duplicates(),
        thrusts_ok(a),
        a.len() <= 255,
        stays_in_box(a),
        visits_all(a, ps),
    ensures
        box_route_ok(ps, ((0i32, 0i32), (0i32, 0i32), all_unvisited(ps.len() as nat)), 0, a),
{
    let n = ps.len() as u32;
    let st: BoxKey = ((0i32, 0i32), (0i32, 0i32), all_unvisited(ps.len() as nat));
    assert(st.2 == ((1u32 << n) - 1) as u32);
    assert(pt(st.0) == (0int, 0int) && pt(st.1) == (0int, 0int));
    assert forall|i: u32| i < 32 && #[trigger] bit(st.2, i) implies i < ps.len() && passes_at(
        pt(st.0),
        pt(st.1),
        a,
        ps[i as int],
    ) by {
        if i >= n {
            lemma_bit_above_full(n, i);
        } else {
            assert(passes_at((0, 0), (0, 0), a, ps[i as int]));
        }
    }
    lemma_route_finishes(ps, st, 0, a);
}

} // verus!
