//! A beam search over the checkpoints: each beam holds the best states
//! (fewest steps, then slowest) after a checkpoint, and the route is read
//! back from the best state at the end.
use vstd::prelude::*;

use crate::beam::{
    by_speed, get_moves, get_moves_with_steps, iabs, imin_len, in_d, in_v, is_move, lookup, move_before,
    greedy_steps, moves_with_steps, reconstruct_steps, table, table_bounded, table_ok, MoveInfo, BEAM_WIDTH,
    GET_MOVES_MAX_RESULTS, INF, NUM_V,
};
use crate::text::string_of;

verus! {

/// A state of the search after a checkpoint: the steps taken, the velocity
/// and the index of the state it came from in the previous beam.
#[derive(Debug, Clone, Copy)]
pub struct BeamState {
    pub num_steps: i64,
    pub vx: i32,
    pub vy: i32,
    pub prev_index: usize,
}

/// Two states are equal when their steps and velocities are: where they
/// came from does not count.
impl PartialEq for BeamState {
    fn eq(&self, other: &Self) -> (r: bool) {
        self.num_steps == other.num_steps && self.vx == other.vx && self.vy == other.vy
    }
}

impl vstd::std_specs::cmp::PartialEqSpecImpl for BeamState {
    open spec fn obeys_eq_spec() -> bool {
        true
    }

    open spec fn eq_spec(&self, other: &Self) -> bool {
        same_key(*self, *other)
    }
}

impl Eq for BeamState {
}

/// The greater of the speeds along the two axes.
pub open spec fn top_speed(b: BeamState) -> int {
    let ax = iabs(b.vx as int);
    let ay = iabs(b.vy as int);
    if ax >= ay {
        ax
    } else {
        ay
    }
}

/// `a` comes before `b` in the order of the beam: fewer steps, then lower
/// top speed, then smaller `vx`, then smaller `vy`.
#[verifier::opaque]
pub open spec fn key_lt(a: BeamState, b: BeamState) -> bool {
    ||| a.num_steps < b.num_steps
    ||| (a.num_steps == b.num_steps && top_speed(a) < top_speed(b))
    ||| (a.num_steps == b.num_steps && top_speed(a) == top_speed(b) && a.vx < b.vx)
    ||| (a.num_steps == b.num_steps && top_speed(a) == top_speed(b) && a.vx == b.vx && a.vy < b.vy)
}

/// `a` and `b` have the same steps and velocity: the beam keeps one of them.
pub open spec fn same_key(a: BeamState, b: BeamState) -> bool {
    a.num_steps == b.num_steps && a.vx == b.vx && a.vy == b.vy
}

/// No candidate before `k` has the key of the candidate at `k`.
pub open spec fn first_with_key(c: Seq<BeamState>, k: int) -> bool {
    forall|j: int| 0 <= j < k ==> !same_key(#[trigger] c[j], c[k])
}

/// The beam is in strictly increasing order of keys.
#[verifier::opaque]
pub open spec fn sel_sorted(r: Seq<BeamState>) -> bool {
    forall|i: int, j: int| 0 <= i < j < r.len() ==> key_lt(#[trigger] r[i], #[trigger] r[j])
}

/// The `i`-th state of the beam is the first candidate of its key.
pub open spec fn from_first(c: Seq<BeamState>, r: Seq<BeamState>, i: int) -> bool {
    exists|k: int| 0 <= k < c.len() && #[trigger] c[k] == r[i] && first_with_key(c, k)
}

/// The key of the candidate at `k` is in the beam, or the beam is full of
/// smaller keys.
pub open spec fn covered(c: Seq<BeamState>, r: Seq<BeamState>, k: int) -> bool {
    (exists|i: int| 0 <= i < r.len() && same_key(#[trigger] r[i], c[k])) || (r.len() == BEAM_WIDTH && key_lt(
        r.last(),
        c[k],
    ))
}

/// Each state of the beam is the first candidate of its key.
#[verifier::opaque]
pub open spec fn sel_from(c: Seq<BeamState>, r: Seq<BeamState>) -> bool {
    forall|i: int| 0 <= i < r.len() ==> #[trigger] from_first(c, r, i)
}

/// Each candidate's key is in the beam, or the beam is full of smaller keys.
#[verifier::opaque]
pub open spec fn sel_covers(c: Seq<BeamState>, r: Seq<BeamState>) -> bool {
    forall|k: int| 0 <= k < c.len() ==> #[trigger] covered(c, r, k)
}

/// `r` is the beam chosen from the candidates `c`: the first candidate of
/// each key, the `BEAM_WIDTH` smallest keys (or all), in order.
pub open spec fn beam_selected(c: Seq<BeamState>, r: Seq<BeamState>) -> bool {
    &&& r.len() <= BEAM_WIDTH
    &&& sel_sorted(r)
    &&& sel_from(c, r)
    &&& sel_covers(c, r)
}

/// The beam chosen from the candidates (see `beam_selected`, which has one
/// solution).
pub open spec fn selected_beam(c: Seq<BeamState>) -> Seq<BeamState> {
    choose|r: Seq<BeamState>| beam_selected(c, r)
}

proof fn lemma_key_order(a: BeamState, b: BeamState)
    ensures
        key_lt(a, b) ==> !key_lt(b, a) && !same_key(a, b),
        !key_lt(a, b) && !key_lt(b, a) ==> same_key(a, b),
        same_key(a, b) ==> !key_lt(a, b),
{
    reveal(key_lt);
}

proof fn lemma_key_trans(a: BeamState, b: BeamState, c: BeamState)
    ensures
        key_lt(a, b) && key_lt(b, c) ==> key_lt(a, c),
        key_lt(a, b) && same_key(b, c) ==> key_lt(a, c),
        same_key(a, b) && key_lt(b, c) ==> key_lt(a, c),
{
    reveal(key_lt);
}

proof fn lemma_sel_len(c: Seq<BeamState>, r: Seq<BeamState>)
    requires
        beam_selected(c, r),
    ensures
        r.len() <= BEAM_WIDTH,
{
}

proof fn lemma_sel_sorted(c: Seq<BeamState>, r: Seq<BeamState>, i: int, j: int)
    requires
        beam_selected(c, r),
        0 <= i < j < r.len(),
    ensures
        key_lt(r[i], r[j]),
{
    reveal(sel_sorted);
}

proof fn lemma_sel_from(c: Seq<BeamState>, r: Seq<BeamState>, i: int) -> (k: int)
    requires
        beam_selected(c, r),
        0 <= i < r.len(),
    ensures
        0 <= k < c.len(),
        c[k] == r[i],
        first_with_key(c, k),
{
    reveal(sel_from);
    assert(from_first(c, r, i));
    choose|k: int| 0 <= k < c.len() && c[k] == r[i] && first_with_key(c, k)
}

proof fn lemma_sel_covers(c: Seq<BeamState>, r: Seq<BeamState>, k: int)
    requires
        beam_selected(c, r),
        0 <= k < c.len(),
    ensures
        (exists|i: int| 0 <= i < r.len() && same_key(#[trigger] r[i], c[k])) || (r.len() == BEAM_WIDTH
            && key_lt(r.last(), c[k])),
{
    reveal(sel_covers);
    assert(covered(c, r, k));
}

/// The beam chosen from candidates is unique.
proof fn lemma_selected_unique(c: Seq<BeamState>, r1: Seq<BeamState>, r2: Seq<BeamState>)
    requires
        beam_selected(c, r1),
        beam_selected(c, r2),
    ensures
        r1 == r2,
{
    assert forall|i: int| 0 <= i < r1.len() && 0 <= i < r2.len() implies r1[i] == r2[i] by {
        lemma_selected_unique_at(c, r1, r2, i);
    }
    lemma_selected_no_longer(c, r1, r2);
    lemma_selected_no_longer(c, r2, r1);
    assert(r1 =~= r2);
}

proof fn lemma_selected_unique_at(c: Seq<BeamState>, r1: Seq<BeamState>, r2: Seq<BeamState>, i: int)
    requires
        beam_selected(c, r1),
        beam_selected(c, r2),
        0 <= i < r1.len(),
        0 <= i < r2.len(),
    ensures
        r1[i] == r2[i],
    decreases i,
{
    assert forall|j: int| 0 <= j < i implies r1[j] == r2[j] by {
        lemma_selected_unique_at(c, r1, r2, j);
    }
    let k1 = lemma_sel_from(c, r1, i);
    let k2 = lemma_sel_from(c, r2, i);
    lemma_not_less_in_other(c, r1, r2, i, k1);
    lemma_not_less_in_other(c, r2, r1, i, k2);
    lemma_key_order(r1[i], r2[i]);
    if k1 < k2 {
        assert(!same_key(c[k1], c[k2]));
    } else if k2 < k1 {
        assert(!same_key(c[k2], c[k1]));
    }
}

/// Two beams that agree before `i` cannot have the candidate at `k` (the
/// `i`-th of `ra`) before the `i`-th of `rb`.
proof fn lemma_not_less_in_other(c: Seq<BeamState>, ra: Seq<BeamState>, rb: Seq<BeamState>, i: int, k: int)
    requires
        beam_selected(c, ra),
        beam_selected(c, rb),
        0 <= i < ra.len(),
        0 <= i < rb.len(),
        forall|j: int| 0 <= j < i ==> ra[j] == rb[j],
        0 <= k < c.len(),
        c[k] == ra[i],
    ensures
        !key_lt(ra[i], rb[i]),
{
    if key_lt(ra[i], rb[i]) {
        lemma_sel_covers(c, rb, k);
        if exists|j: int| 0 <= j < rb.len() && same_key(#[trigger] rb[j], c[k]) {
            let j = choose|j: int| 0 <= j < rb.len() && same_key(#[trigger] rb[j], c[k]);
            if j < i {
                assert(ra[j] == rb[j]);
                lemma_sel_sorted(c, ra, j, i);
                lemma_key_order(ra[j], ra[i]);
            } else if j == i {
                lemma_key_order(ra[i], rb[i]);
            } else {
                lemma_sel_sorted(c, rb, i, j);
                lemma_key_trans(rb[i], rb[j], c[k]);
                lemma_key_order(ra[i], rb[i]);
            }
        } else {
            if i < rb.len() - 1 {
                lemma_sel_sorted(c, rb, i, rb.len() - 1);
                lemma_key_trans(rb[i], rb.last(), c[k]);
            }
            lemma_key_order(ra[i], rb[i]);
        }
    }
}

/// A chosen beam is no shorter than another chosen from the same
/// candidates.
proof fn lemma_selected_no_longer(c: Seq<BeamState>, ra: Seq<BeamState>, rb: Seq<BeamState>)
    requires
        beam_selected(c, ra),
        beam_selected(c, rb),
        forall|j: int| 0 <= j < ra.len() && j < rb.len() ==> ra[j] == rb[j],
    ensures
        ra.len() >= rb.len(),
{
    if ra.len() < rb.len() {
        let i = ra.len() as int;
        let k = lemma_sel_from(c, rb, i);
        lemma_sel_covers(c, ra, k);
        lemma_sel_len(c, rb);
        if exists|j: int| 0 <= j < ra.len() && same_key(#[trigger] ra[j], c[k]) {
            let j = choose|j: int| 0 <= j < ra.len() && same_key(#[trigger] ra[j], c[k]);
            assert(rb[j] == ra[j]);
            lemma_sel_sorted(c, rb, j, i);
            lemma_key_order(rb[j], rb[i]);
        }
    }
}

proof fn intro_sorted(r: Seq<BeamState>)
    requires
        forall|i: int, j: int| 0 <= i < j < r.len() ==> key_lt(#[trigger] r[i], #[trigger] r[j]),
    ensures
        sel_sorted(r),
{
    reveal(sel_sorted);
}

proof fn intro_from(c: Seq<BeamState>, r: Seq<BeamState>)
    requires
        forall|i: int| 0 <= i < r.len() ==> #[trigger] from_first(c, r, i),
    ensures
        sel_from(c, r),
{
    reveal(sel_from);
}

proof fn intro_covers(c: Seq<BeamState>, r: Seq<BeamState>)
    requires
        forall|k: int| 0 <= k < c.len() ==> #[trigger] covered(c, r, k),
    ensures
        sel_covers(c, r),
{
    reveal(sel_covers);
}

proof fn lemma_sel_empty()
    ensures
        beam_selected(Seq::<BeamState>::empty(), Seq::<BeamState>::empty()),
{
    reveal(sel_sorted);
    reveal(sel_from);
    reveal(sel_covers);
}

proof fn lemma_first_push(c: Seq<BeamState>, x: BeamState, k: int)
    requires
        0 <= k < c.len(),
        first_with_key(c, k),
    ensures
        first_with_key(c.push(x), k),
{
    assert forall|j: int| 0 <= j < k implies !same_key(#[trigger] c.push(x)[j], c.push(x)[k]) by {
        assert(c.push(x)[j] == c[j]);
    }
}

/// A candidate whose key the beam holds changes nothing.
proof fn lemma_sel_skip_dup(c: Seq<BeamState>, r: Seq<BeamState>, x: BeamState, p: int)
    requires
        beam_selected(c, r),
        0 <= p < r.len(),
        same_key(r[p], x),
    ensures
        beam_selected(c.push(x), r),
{
    let c2 = c.push(x);
    assert forall|i: int| 0 <= i < r.len() implies #[trigger] from_first(c2, r, i) by {
        let k = lemma_sel_from(c, r, i);
        lemma_first_push(c, x, k);
        assert(c2[k] == r[i]);
    }
    assert forall|k: int| 0 <= k < c2.len() implies #[trigger] covered(c2, r, k) by {
        if k < c.len() {
            assert(c2[k] == c[k]);
            lemma_sel_covers(c, r, k);
        } else {
            assert(same_key(r[p], c2[k]));
        }
    }
    intro_from(c2, r);
    intro_covers(c2, r);
}

/// A candidate beyond a full beam changes nothing.
proof fn lemma_sel_skip_big(c: Seq<BeamState>, r: Seq<BeamState>, x: BeamState)
    requires
        beam_selected(c, r),
        r.len() == BEAM_WIDTH,
        key_lt(r.last(), x),
    ensures
        beam_selected(c.push(x), r),
{
    let c2 = c.push(x);
    assert forall|i: int| 0 <= i < r.len() implies #[trigger] from_first(c2, r, i) by {
        let k = lemma_sel_from(c, r, i);
        lemma_first_push(c, x, k);
        assert(c2[k] == r[i]);
    }
    assert forall|k: int| 0 <= k < c2.len() implies #[trigger] covered(c2, r, k) by {
        if k < c.len() {
            assert(c2[k] == c[k]);
            lemma_sel_covers(c, r, k);
        }
    }
    intro_from(c2, r);
    intro_covers(c2, r);
}

/// A candidate of a new key, placed at `p` in order, is the first of its
/// key.
proof fn lemma_new_key_first(c: Seq<BeamState>, r: Seq<BeamState>, x: BeamState, p: int)
    requires
        beam_selected(c, r),
        0 <= p <= r.len(),
        p < BEAM_WIDTH,
        forall|q: int| 0 <= q < p ==> key_lt(#[trigger] r[q], x),
        p < r.len() ==> key_lt(x, r[p]),
    ensures
        first_with_key(c.push(x), c.len() as int),
{
    let c2 = c.push(x);
    assert forall|j: int| 0 <= j < c.len() implies !same_key(#[trigger] c2[j], c2[c.len() as int]) by {
        assert(c2[j] == c[j]);
        if same_key(c[j], x) {
            lemma_sel_covers(c, r, j);
            if exists|i: int| 0 <= i < r.len() && same_key(#[trigger] r[i], c[j]) {
                let i = choose|i: int| 0 <= i < r.len() && same_key(#[trigger] r[i], c[j]);
                if i < p {
                    lemma_key_trans(r[i], x, c[j]);
                    assert(key_lt(r[i], x));
                    lemma_key_order(r[i], x);
                } else {
                    if i > p {
                        lemma_sel_sorted(c, r, p, i);
                        lemma_key_trans(x, r[p], r[i]);
                    }
                    lemma_key_order(x, r[i]);
                }
            } else {
                lemma_sel_len(c, r);
                if p < r.len() - 1 {
                    lemma_sel_sorted(c, r, p, r.len() - 1);
                    lemma_key_trans(x, r[p], r.last());
                }
                lemma_key_trans(x, r.last(), c[j]);
                lemma_key_order(x, c[j]);
            }
        }
    }
}

/// A candidate of a new key goes into a beam that is not full, in order.
proof fn lemma_sel_insert(c: Seq<BeamState>, r: Seq<BeamState>, x: BeamState, p: int)
    requires
        beam_selected(c, r),
        r.len() < BEAM_WIDTH,
        0 <= p <= r.len(),
        forall|q: int| 0 <= q < p ==> key_lt(#[trigger] r[q], x),
        p < r.len() ==> key_lt(x, r[p]),
    ensures
        beam_selected(c.push(x), r.insert(p, x)),
{
    lemma_new_key_first(c, r, x, p);
    let c2 = c.push(x);
    let r2 = r.insert(p, x);
    assert forall|i: int, j: int| 0 <= i < j < r2.len() implies key_lt(#[trigger] r2[i], #[trigger] r2[j]) by {
        if i < p && j < p {
            lemma_sel_sorted(c, r, i, j);
        } else if i < p && j == p {
        } else if i < p {
            lemma_sel_sorted(c, r, i, j - 1);
        } else if i == p {
            if p < j - 1 {
                lemma_sel_sorted(c, r, p, j - 1);
                lemma_key_trans(x, r[p], r[j - 1]);
            }
        } else {
            lemma_sel_sorted(c, r, i - 1, j - 1);
        }
    }
    assert forall|i: int| 0 <= i < r2.len() implies #[trigger] from_first(c2, r2, i) by {
        if i == p {
            assert(c2[c.len() as int] == r2[i]);
        } else {
            let ri = if i < p { i } else { i - 1 };
            let k = lemma_sel_from(c, r, ri);
            lemma_first_push(c, x, k);
            assert(c2[k] == r2[i]);
        }
    }
    assert forall|k: int| 0 <= k < c2.len() implies #[trigger] covered(c2, r2, k) by {
        if k < c.len() {
            assert(c2[k] == c[k]);
            lemma_sel_covers(c, r, k);
            lemma_sel_len(c, r);
            let i = choose|i: int| 0 <= i < r.len() && same_key(#[trigger] r[i], c[k]);
            let i2 = if i < p { i } else { i + 1 };
            assert(r2[i2] == r[i]);
        } else {
            assert(same_key(r2[p], c2[k]));
        }
    }
    lemma_sel_len(c, r);
    intro_sorted(r2);
    intro_from(c2, r2);
    intro_covers(c2, r2);
}

/// A candidate of a new key before the last of a full beam goes in, in
/// order, and the last leaves.
proof fn lemma_sel_insert_drop(c: Seq<BeamState>, r: Seq<BeamState>, x: BeamState, p: int)
    requires
        beam_selected(c, r),
        r.len() == BEAM_WIDTH,
        0 <= p < r.len(),
        forall|q: int| 0 <= q < p ==> key_lt(#[trigger] r[q], x),
        key_lt(x, r[p]),
    ensures
        beam_selected(c.push(x), r.insert(p, x).drop_last()),
{
    lemma_new_key_first(c, r, x, p);
    let c2 = c.push(x);
    let r2 = r.insert(p, x).drop_last();
    assert(r2.len() == BEAM_WIDTH);
    assert forall|i: int, j: int| 0 <= i < j < r2.len() implies key_lt(#[trigger] r2[i], #[trigger] r2[j]) by {
        if i < p && j < p {
            lemma_sel_sorted(c, r, i, j);
        } else if i < p && j == p {
        } else if i < p {
            lemma_sel_sorted(c, r, i, j - 1);
        } else if i == p {
            if p < j - 1 {
                lemma_sel_sorted(c, r, p, j - 1);
                lemma_key_trans(x, r[p], r[j - 1]);
            }
        } else {
            lemma_sel_sorted(c, r, i - 1, j - 1);
        }
    }
    assert forall|i: int| 0 <= i < r2.len() implies #[trigger] from_first(c2, r2, i) by {
        if i == p {
            assert(c2[c.len() as int] == r2[i]);
        } else {
            let ri = if i < p { i } else { i - 1 };
            let k = lemma_sel_from(c, r, ri);
            lemma_first_push(c, x, k);
            assert(c2[k] == r2[i]);
        }
    }
    // the new last is before the old last
    assert(key_lt(r2.last(), r.last())) by {
        if p == r.len() - 1 {
            assert(r2.last() == x);
        } else {
            assert(r2.last() == r[r.len() - 2]);
            lemma_sel_sorted(c, r, r.len() - 2, r.len() - 1);
        }
    }
    assert forall|k: int| 0 <= k < c2.len() implies #[trigger] covered(c2, r2, k) by {
        if k < c.len() {
            assert(c2[k] == c[k]);
            lemma_sel_covers(c, r, k);
            if exists|i: int| 0 <= i < r.len() && same_key(#[trigger] r[i], c[k]) {
                let i = choose|i: int| 0 <= i < r.len() && same_key(#[trigger] r[i], c[k]);
                if i < r.len() - 1 {
                    let i2 = if i < p { i } else { i + 1 };
                    assert(r2[i2] == r[i]);
                } else {
                    lemma_key_trans(r2.last(), r.last(), c[k]);
                }
            } else {
                lemma_key_trans(r2.last(), r.last(), c[k]);
            }
        } else {
            assert(same_key(r2[p], c2[k]));
        }
    }
    intro_sorted(r2);
    intro_from(c2, r2);
    intro_covers(c2, r2);
}

/// Whether `a` comes before `b` in the order of the beam (see `key_lt`).
fn beam_before(a: BeamState, b: BeamState) -> (r: bool)
    ensures
        r == key_lt(a, b),
{
    proof {
        reveal(key_lt);
    }
    let ax = if a.vx < 0 { -(a.vx as i64) } else { a.vx as i64 };
    let ay = if a.vy < 0 { -(a.vy as i64) } else { a.vy as i64 };
    let bx = if b.vx < 0 { -(b.vx as i64) } else { b.vx as i64 };
    let by = if b.vy < 0 { -(b.vy as i64) } else { b.vy as i64 };
    let ta = if ax >= ay { ax } else { ay };
    let tb = if bx >= by { bx } else { by };
    a.num_steps < b.num_steps || (a.num_steps == b.num_steps && (ta < tb || (ta == tb && (a.vx < b.vx || (a.vx
        == b.vx && a.vy < b.vy)))))
}

/// The beam chosen from the candidates, in their order of arrival (see
/// `beam_selected`).
pub fn select_beam(c: &Vec<BeamState>) -> (r: Vec<BeamState>)
    ensures
        beam_selected(c@, r@),
        r@ == selected_beam(c@),
{
    let mut kept: Vec<BeamState> = Vec::new();
    proof {
        lemma_sel_empty();
        assert(c@.take(0) =~= Seq::<BeamState>::empty());
    }
    let mut i: usize = 0;
    while i < c.len()
        invariant
            i <= c.len(),
            beam_selected(c@.take(i as int), kept@),
        decreases c.len() - i,
    {
        let x = c[i];
        let ghost cp = c@.take(i as int);
        assert(c@.take(i + 1) =~= cp.push(x));
        proof {
            lemma_sel_len(cp, kept@);
        }
        let mut p: usize = 0;
        while p < kept.len() && beam_before(kept[p], x)
            invariant
                p <= kept.len(),
                forall|q: int| 0 <= q < p ==> key_lt(#[trigger] kept@[q], x),
            decreases kept.len() - p,
        {
            p = p + 1;
        }
        let dup = p < kept.len() && kept[p].num_steps == x.num_steps && kept[p].vx == x.vx && kept[p].vy == x.vy;
        if dup {
            proof {
                lemma_sel_skip_dup(cp, kept@, x, p as int);
            }
        } else if kept.len() < BEAM_WIDTH {
            proof {
                if p < kept.len() {
                    lemma_key_order(kept@[p as int], x);
                }
                lemma_sel_insert(cp, kept@, x, p as int);
            }
            kept.insert(p, x);
        } else if p < kept.len() {
            proof {
                lemma_key_order(kept@[p as int], x);
                lemma_sel_insert_drop(cp, kept@, x, p as int);
            }
            kept.insert(p, x);
            let _ = kept.pop();
        } else {
            proof {
                assert(key_lt(kept@[kept.len() - 1], x));
                lemma_sel_skip_big(cp, kept@, x);
            }
        }
        i = i + 1;
    }
    proof {
        assert(c@.take(c.len() as int) =~= c@);
        assert(beam_selected(c@, selected_beam(c@)));
        lemma_selected_unique(c@, kept@, selected_beam(c@));
    }
    kept
}

/// The moves of exactly `s` steps over `dx` from velocity `v`, at most `n`
/// of them (what `get_moves_with_steps` returns).
pub open spec fn moves_at(m: Seq<Seq<Seq<i32>>>, v: int, dx: int, s: i32, n: int) -> Seq<MoveInfo> {
    let all = moves_with_steps(m, v, dx, s, NUM_V as nat);
    all.take(imin_len(n, all.len() as int))
}

/// Some move of the table covers `dx` from velocity `v`.
pub open spec fn has_move(m: Seq<Seq<Seq<i32>>>, v: int, dx: int) -> bool {
    in_d(dx) && exists|ve: int| in_v(ve) && #[trigger] lookup(m, v, ve, dx) != INF
}

/// The least entry of the table over `dx` from velocity `v` to the end
/// velocities up to `hi` (`INF` when there is none).
pub open spec fn min_lookup(m: Seq<Seq<Seq<i32>>>, v: int, dx: int, hi: int) -> int
    decreases hi + 101,
{
    if hi < -100 {
        INF as int
    } else {
        let r = min_lookup(m, v, dx, hi - 1);
        let x = lookup(m, v, hi, dx);
        if x < r {
            x
        } else {
            r
        }
    }
}

/// The fewest steps of the moves over `dx` from velocity `v`.
pub open spec fn fewest_steps(m: Seq<Seq<Seq<i32>>>, v: int, dx: int) -> int {
    min_lookup(m, v, dx, 100)
}

proof fn lemma_min_lookup(m: Seq<Seq<Seq<i32>>>, v: int, dx: int, hi: int)
    requires
        -101 <= hi <= 100,
    ensures
        forall|ve: int| -100 <= ve <= hi ==> min_lookup(m, v, dx, hi) <= #[trigger] lookup(m, v, ve, dx),
        min_lookup(m, v, dx, hi) == INF || exists|w: int| -100 <= w <= hi && #[trigger] lookup(m, v, w, dx) == min_lookup(m, v, dx, hi),
    decreases hi + 101,
{
    if hi >= -100 {
        lemma_min_lookup(m, v, dx, hi - 1);
        if min_lookup(m, v, dx, hi) != INF && min_lookup(m, v, dx, hi) != lookup(m, v, hi, dx) {
            let w = choose|w: int| -100 <= w <= hi - 1 && #[trigger] lookup(m, v, w, dx) == min_lookup(m, v, dx, hi - 1);
            assert(lookup(m, v, w, dx) == min_lookup(m, v, dx, hi));
        }
    }
}

/// The states of one move along x combined with each move along y.
pub open spec fn row_states(mx: MoveInfo, my: Seq<MoveInfo>, ns: i64, j: usize) -> Seq<BeamState> {
    my.map_values(|ml: MoveInfo| BeamState { num_steps: ns, vx: mx.terminal_velocity, vy: ml.terminal_velocity, prev_index: j })
}

/// The states of every move along x combined with every move along y, x
/// first.
pub open spec fn cross(mx: Seq<MoveInfo>, my: Seq<MoveInfo>, ns: i64, j: usize) -> Seq<BeamState>
    decreases mx.len(),
{
    if mx.len() == 0 {
        Seq::empty()
    } else {
        cross(mx.drop_last(), my, ns, j) + row_states(mx.last(), my, ns, j)
    }
}

/// The candidates from the state `b` (at `j` in its beam) that take exactly
/// `s` more steps.
pub open spec fn at_steps(m: Seq<Seq<Seq<i32>>>, b: BeamState, j: usize, dx: int, dy: int, n: int, s: int) -> Seq<BeamState> {
    let mx = moves_at(m, b.vx as int, dx, s as i32, n);
    let my = moves_at(m, b.vy as int, dy, s as i32, n);
    if mx.len() == 0 || my.len() == 0 {
        Seq::empty()
    } else {
        cross(mx, my, (b.num_steps + s) as i64, j)
    }
}

/// The candidates from the state `b` for the step counts `lo..=hi`.
pub open spec fn step_cands(m: Seq<Seq<Seq<i32>>>, b: BeamState, j: usize, dx: int, dy: int, n: int, lo: int, hi: int) -> Seq<BeamState>
    decreases hi - lo + 1,
{
    if hi < lo {
        Seq::empty()
    } else {
        step_cands(m, b, j, dx, dy, n, lo, hi - 1) + at_steps(m, b, j, dx, dy, n, hi)
    }
}

/// The candidates from the state `b`: from the fewest steps both axes need
/// to `extra` more.
pub open spec fn state_cands(m: Seq<Seq<Seq<i32>>>, b: BeamState, j: usize, dx: int, dy: int, n: int, extra: int) -> Seq<BeamState> {
    if !has_move(m, b.vx as int, dx) || !has_move(m, b.vy as int, dy) {
        Seq::empty()
    } else {
        let fx = fewest_steps(m, b.vx as int, dx);
        let fy = fewest_steps(m, b.vy as int, dy);
        let lb = if fx >= fy {
            fx
        } else {
            fy
        };
        step_cands(m, b, j, dx, dy, n, lb, lb + extra)
    }
}

/// The candidates from the first `j` states of a beam.
pub open spec fn level_cands(m: Seq<Seq<Seq<i32>>>, level: Seq<BeamState>, dx: int, dy: int, n: int, extra: int, j: int) -> Seq<BeamState>
    decreases j,
{
    if j <= 0 {
        Seq::empty()
    } else {
        level_cands(m, level, dx, dy, n, extra, j - 1) + state_cands(m, level[j - 1], (j - 1) as usize, dx, dy, n, extra)
    }
}

proof fn lemma_mws_members(m: Seq<Seq<Seq<i32>>>, v: int, dx: int, s: i32, n: nat)
    requires
        n <= NUM_V,
    ensures
        forall|i: int|
            0 <= i < moves_with_steps(m, v, dx, s, n).len() ==> in_v((#[trigger] moves_with_steps(m, v, dx, s, n)[i]).terminal_velocity as int)
                && moves_with_steps(m, v, dx, s, n)[i].steps == s,
    decreases n,
{
    if n > 0 {
        lemma_mws_members(m, v, dx, s, (n - 1) as nat);
        let prev = moves_with_steps(m, v, dx, s, (n - 1) as nat);
        let cur = moves_with_steps(m, v, dx, s, n);
        assert(-100 <= by_speed(n - 1) <= 100);
        assert forall|i: int| 0 <= i < cur.len() implies in_v((#[trigger] cur[i]).terminal_velocity as int) && cur[i].steps == s by {
            if i < prev.len() {
                assert(cur[i] == prev[i]);
            }
        }
    }
}

/// What `get_moves` returns tells whether there is a move and the fewest
/// steps.
proof fn lemma_get_moves_first(m: Seq<Seq<Seq<i32>>>, v: int, dx: int, r: Seq<MoveInfo>, max_results: int)
    requires
        table_bounded(m),
        table_ok(m),
        in_v(v),
        in_d(dx),
        max_results >= 1,
        r.len() <= max_results,
        forall|i: int| 0 <= i < r.len() ==> is_move(m, v, dx, #[trigger] r[i]),
        forall|i: int, j: int| 0 <= i < j < r.len() ==> move_before(#[trigger] r[i], #[trigger] r[j]),
        forall|ve: int|
            #![trigger lookup(m, v, ve, dx)]
            in_v(ve) && lookup(m, v, ve, dx) != INF && (forall|i: int|
                0 <= i < r.len() ==> (#[trigger] r[i]).terminal_velocity != ve) ==> r.len() == max_results
                && (r.len() > 0 ==> move_before(
                r.last(),
                MoveInfo { steps: lookup(m, v, ve, dx) as i32, terminal_velocity: ve as i32 },
            )),
    ensures
        r.len() > 0 <==> has_move(m, v, dx),
        r.len() > 0 ==> fewest_steps(m, v, dx) == r[0].steps,
        has_move(m, v, dx) ==> 0 <= fewest_steps(m, v, dx) < INF,
{
    lemma_min_lookup(m, v, dx, 100);
    if r.len() > 0 {
        assert(is_move(m, v, dx, r[0]));
        let ve0 = r[0].terminal_velocity as int;
        assert(in_v(ve0) && lookup(m, v, ve0, dx) != INF);
        assert(has_move(m, v, dx));
        assert forall|ve: int| in_v(ve) && #[trigger] lookup(m, v, ve, dx) != INF implies r[0].steps <= lookup(m, v, ve, dx) by {
            if exists|i: int| 0 <= i < r.len() && (#[trigger] r[i]).terminal_velocity == ve {
                let i = choose|i: int| 0 <= i < r.len() && (#[trigger] r[i]).terminal_velocity == ve;
                assert(is_move(m, v, dx, r[i]));
                if i > 0 {
                    assert(move_before(r[0], r[i]));
                }
            } else {
                if r.len() > 1 {
                    assert(move_before(r[0], r[r.len() - 1]));
                }
            }
        }
        let f = fewest_steps(m, v, dx);
        assert(f <= lookup(m, v, ve0, dx));
        if f != INF {
            let w = choose|w: int| -100 <= w <= 100 && #[trigger] lookup(m, v, w, dx) == f;
            assert(r[0].steps <= lookup(m, v, w, dx));
        }
    } else {
        if has_move(m, v, dx) {
            let ve = choose|ve: int| in_v(ve) && #[trigger] lookup(m, v, ve, dx) != INF;
            assert(r.len() == max_results);
        }
    }
    if has_move(m, v, dx) {
        let ve = choose|ve: int| in_v(ve) && #[trigger] lookup(m, v, ve, dx) != INF;
        assert(0 <= m[v - (-100)][ve - (-100)][dx - (-10000)] <= INF);
        let f = fewest_steps(m, v, dx);
        assert(f <= lookup(m, v, ve, dx));
        if f != INF {
            let w = choose|w: int| -100 <= w <= 100 && #[trigger] lookup(m, v, w, dx) == f;
            assert(0 <= m[v - (-100)][w - (-100)][dx - (-10000)] <= INF);
        }
    }
}

/// Appends every move along x combined with every move along y.
fn push_cross(out: &mut Vec<BeamState>, mx: &Vec<MoveInfo>, my: &Vec<MoveInfo>, ns: i64, j: usize)
    ensures
        final(out)@ == old(out)@ + cross(mx@, my@, ns, j),
{
    let ghost start = out@;
    let mut k: usize = 0;
    proof {
        assert(mx@.take(0) =~= Seq::<MoveInfo>::empty());
        assert(start + cross(mx@.take(0), my@, ns, j) =~= start);
    }
    while k < mx.len()
        invariant
            k <= mx.len(),
            out@ == start + cross(mx@.take(k as int), my@, ns, j),
        decreases mx.len() - k,
    {
        let tv = mx[k].terminal_velocity;
        let ghost before = out@;
        let mut l: usize = 0;
        proof {
            assert(my@.take(0) =~= Seq::<MoveInfo>::empty());
            assert(before + row_states(mx@[k as int], my@.take(0), ns, j) =~= before);
        }
        while l < my.len()
            invariant
                l <= my.len(),
                k < mx.len(),
                tv == mx@[k as int].terminal_velocity,
                out@ == before + row_states(mx@[k as int], my@.take(l as int), ns, j),
            decreases my.len() - l,
        {
            let st = BeamState { num_steps: ns, vx: tv, vy: my[l].terminal_velocity, prev_index: j };
            out.push(st);
            proof {
                assert(row_states(mx@[k as int], my@.take(l + 1), ns, j) =~= row_states(mx@[k as int], my@.take(l as int), ns, j).push(st));
            }
            l = l + 1;
        }
        proof {
            assert(my@.take(my.len() as int) =~= my@);
            assert(mx@.take(k + 1).drop_last() =~= mx@.take(k as int));
            assert(mx@.take(k + 1).last() == mx@[k as int]);
            assert(cross(mx@.take(k + 1), my@, ns, j) == cross(mx@.take(k as int), my@, ns, j) + row_states(mx@[k as int], my@, ns, j));
        }
        k = k + 1;
    }
    assert(mx@.take(mx.len() as int) =~= mx@);
}

/// The states of a beam have velocities in the table and step counts small
/// enough to add to.
pub open spec fn level_ok(level: Seq<BeamState>) -> bool {
    forall|j: int|
        0 <= j < level.len() ==> in_v((#[trigger] level[j]).vx as int) && in_v(level[j].vy as int) && 0
            <= level[j].num_steps <= 0x1000_0000_0000_0000
}

/// The candidates from every state of a beam (see `level_cands`).
fn level_candidates(level: &Vec<BeamState>, dx: i32, dy: i32, min_steps: &Vec<Vec<Vec<i32>>>, n: usize, extra: i32) -> (r: Vec<BeamState>)
    requires
        table_ok(table(min_steps)),
        table_bounded(table(min_steps)),
        level_ok(level@),
        1 <= n <= 20,
        0 <= extra <= 50,
    ensures
        r@ == level_cands(table(min_steps), level@, dx as int, dy as int, n as int, extra as int, level.len() as int),
{
    let ghost m = table(min_steps);
    let mut out: Vec<BeamState> = Vec::new();
    let mut j: usize = 0;
    while j < level.len()
        invariant
            m == table(min_steps),
            table_ok(m),
            table_bounded(m),
            level_ok(level@),
            1 <= n <= 20,
            0 <= extra <= 50,
            j <= level.len(),
            out@ == level_cands(m, level@, dx as int, dy as int, n as int, extra as int, j as int),
        decreases level.len() - j,
    {
        let b = level[j];
        assert(in_v(b.vx as int) && in_v(b.vy as int) && 0 <= b.num_steps <= 0x1000_0000_0000_0000);
        let mx0 = get_moves(b.vx, dx, n, min_steps);
        let my0 = get_moves(b.vy, dy, n, min_steps);
        proof {
            if in_d(dx as int) {
                lemma_get_moves_first(m, b.vx as int, dx as int, mx0@, n as int);
            }
            if in_d(dy as int) {
                lemma_get_moves_first(m, b.vy as int, dy as int, my0@, n as int);
            }
        }
        let ghost prefix = out@;
        if mx0.len() > 0 && my0.len() > 0 {
            assert(is_move(m, b.vx as int, dx as int, mx0@[0]));
            assert(is_move(m, b.vy as int, dy as int, my0@[0]));
            assert(0 <= m[b.vx - (-100)][mx0@[0].terminal_velocity - (-100)][dx - (-10000)] <= INF);
            assert(0 <= m[b.vy - (-100)][my0@[0].terminal_velocity - (-100)][dy - (-10000)] <= INF);
            let lb = if mx0[0].steps >= my0[0].steps {
                mx0[0].steps
            } else {
                my0[0].steps
            };
            let hi = lb + extra;
            let mut s = lb;
            proof {
                assert(step_cands(m, b, j, dx as int, dy as int, n as int, lb as int, lb - 1) =~= Seq::<BeamState>::empty());
            }
            while s <= hi
                invariant
                    m == table(min_steps),
                    table_ok(m),
                    in_v(b.vx as int),
                    in_v(b.vy as int),
                    in_d(dx as int),
                    in_d(dy as int),
                    0 <= b.num_steps <= 0x1000_0000_0000_0000,
                    0 <= lb < INF,
                    hi == lb + extra,
                    0 <= extra <= 50,
                    lb <= s <= hi + 1,
                    out@ == prefix + step_cands(m, b, j, dx as int, dy as int, n as int, lb as int, s - 1),
                decreases hi + 1 - s,
            {
                let mx = get_moves_with_steps(b.vx, dx, s, n, min_steps);
                let my = get_moves_with_steps(b.vy, dy, s, n, min_steps);
                let ghost before = out@;
                if mx.len() > 0 && my.len() > 0 {
                    push_cross(&mut out, &mx, &my, b.num_steps + s as i64, j);
                }
                proof {
                    assert(step_cands(m, b, j, dx as int, dy as int, n as int, lb as int, s as int) == step_cands(
                        m,
                        b,
                        j,
                        dx as int,
                        dy as int,
                        n as int,
                        lb as int,
                        s - 1,
                    ) + at_steps(m, b, j, dx as int, dy as int, n as int, s as int));
                    assert(out@ =~= prefix + step_cands(m, b, j, dx as int, dy as int, n as int, lb as int, s as int));
                }
                s = s + 1;
            }
            assert(out@ =~= prefix + state_cands(m, b, j, dx as int, dy as int, n as int, extra as int));
        } else {
            assert(state_cands(m, b, j, dx as int, dy as int, n as int, extra as int) =~= Seq::<BeamState>::empty());
            assert(out@ =~= prefix + state_cands(m, b, j, dx as int, dy as int, n as int, extra as int));
        }
        j = j + 1;
    }
    out
}

/// The beam after the next checkpoint, `(dx, dy)` away: chosen from the
/// candidates of ten moves a state and ten more steps, or, when there are
/// none, of twenty moves a state and fifty more steps.
pub open spec fn next_beam(m: Seq<Seq<Seq<i32>>>, level: Seq<BeamState>, dx: int, dy: int) -> Seq<BeamState> {
    let c = level_cands(m, level, dx, dy, GET_MOVES_MAX_RESULTS as int, 10, level.len() as int);
    if c.len() > 0 {
        selected_beam(c)
    } else {
        selected_beam(level_cands(m, level, dx, dy, 2 * GET_MOVES_MAX_RESULTS as int, 50, level.len() as int))
    }
}

/// The state at the start: no steps, at rest.
pub open spec fn start_state() -> BeamState {
    BeamState { num_steps: 0, vx: 0, vy: 0, prev_index: 0 }
}

/// The offset from the checkpoint before the `k`-th (or the origin) to it.
pub open spec fn leg(cps: Seq<(i32, i32)>, k: int) -> (int, int) {
    if k == 0 {
        (cps[0].0 as int, cps[0].1 as int)
    } else {
        (cps[k].0 - cps[k - 1].0, cps[k].1 - cps[k - 1].1)
    }
}

/// The beam after the first `i` checkpoints.
pub open spec fn beam_at(m: Seq<Seq<Seq<i32>>>, cps: Seq<(i32, i32)>, i: int) -> Seq<BeamState>
    decreases i,
{
    if i <= 0 {
        seq![start_state()]
    } else {
        next_beam(m, beam_at(m, cps, i - 1), leg(cps, i - 1).0, leg(cps, i - 1).1)
    }
}

/// The index of the chosen state in the beam after `i` checkpoints: the
/// first of the last beam, then the state each chosen one came from.
pub open spec fn pick(m: Seq<Seq<Seq<i32>>>, cps: Seq<(i32, i32)>, i: int) -> int
    decreases cps.len() - i,
{
    if i >= cps.len() {
        0
    } else {
        beam_at(m, cps, i + 1)[pick(m, cps, i + 1)].prev_index as int
    }
}

/// The chosen state after `i` checkpoints.
pub open spec fn chosen(m: Seq<Seq<Seq<i32>>>, cps: Seq<(i32, i32)>, i: int) -> BeamState {
    beam_at(m, cps, i)[pick(m, cps, i)]
}

/// The keypad digit of the thrust `(ax, ay)`.
pub open spec fn key_digit(ax: int, ay: int) -> char {
    ('0' as int + 5 + ax + 3 * ay) as char
}

/// The keys of the `k`-th leg: the thrusts along x paired with those along
/// y, or nothing when y has fewer.
pub open spec fn leg_keys(m: Seq<Seq<Seq<i32>>>, cps: Seq<(i32, i32)>, k: int) -> Option<Seq<char>> {
    let a = chosen(m, cps, k);
    let b = chosen(m, cps, k + 1);
    let steps = b.num_steps - a.num_steps;
    let xs = greedy_steps(m, a.vx as int, leg(cps, k).0, b.vx as int, steps, 0);
    let ys = greedy_steps(m, a.vy as int, leg(cps, k).1, b.vy as int, steps, 0);
    if ys.len() < xs.len() {
        None
    } else {
        Some(Seq::new(xs.len(), |j: int| key_digit(xs[j] as int, ys[j] as int)))
    }
}

/// The keys of the first `k` legs.
pub open spec fn route_keys(m: Seq<Seq<Seq<i32>>>, cps: Seq<(i32, i32)>, k: int) -> Option<Seq<char>>
    decreases k,
{
    if k <= 0 {
        Some(Seq::empty())
    } else {
        match route_keys(m, cps, k - 1) {
            None => None,
            Some(t) => match leg_keys(m, cps, k - 1) {
                None => None,
                Some(u) => Some(t + u),
            },
        }
    }
}

/// The route found by the beam search: nothing when the last beam is empty.
pub open spec fn beam_route(m: Seq<Seq<Seq<i32>>>, cps: Seq<(i32, i32)>) -> Option<Seq<char>> {
    if beam_at(m, cps, cps.len() as int).len() == 0 {
        None
    } else {
        route_keys(m, cps, cps.len() as int)
    }
}

/// `b` comes from a state of `level` by at most `INF + 50` steps.
pub open spec fn child_of(level: Seq<BeamState>, b: BeamState) -> bool {
    &&& b.prev_index < level.len()
    &&& in_v(b.vx as int)
    &&& in_v(b.vy as int)
    &&& level[b.prev_index as int].num_steps <= b.num_steps <= level[b.prev_index as int].num_steps + INF + 50
}

proof fn lemma_cross_children(mx: Seq<MoveInfo>, my: Seq<MoveInfo>, ns: i64, j: usize)
    requires
        forall|k: int| 0 <= k < mx.len() ==> in_v((#[trigger] mx[k]).terminal_velocity as int),
        forall|k: int| 0 <= k < my.len() ==> in_v((#[trigger] my[k]).terminal_velocity as int),
    ensures
        forall|q: int|
            0 <= q < cross(mx, my, ns, j).len() ==> {
                let c = #[trigger] cross(mx, my, ns, j)[q];
                c.num_steps == ns && c.prev_index == j && in_v(c.vx as int) && in_v(c.vy as int)
            },
    decreases mx.len(),
{
    if mx.len() > 0 {
        lemma_cross_children(mx.drop_last(), my, ns, j);
        let pre = cross(mx.drop_last(), my, ns, j);
        let row = row_states(mx.last(), my, ns, j);
        assert(in_v(mx[mx.len() - 1].terminal_velocity as int));
        assert forall|q: int| 0 <= q < cross(mx, my, ns, j).len() implies {
            let c = #[trigger] cross(mx, my, ns, j)[q];
            c.num_steps == ns && c.prev_index == j && in_v(c.vx as int) && in_v(c.vy as int)
        } by {
            if q >= pre.len() {
                assert(cross(mx, my, ns, j)[q] == row[q - pre.len()]);
                assert(in_v(my[q - pre.len()].terminal_velocity as int));
            } else {
                assert(cross(mx, my, ns, j)[q] == pre[q]);
            }
        }
    }
}

proof fn lemma_moves_at_members(m: Seq<Seq<Seq<i32>>>, v: int, dx: int, s: i32, n: int)
    requires
        0 <= n,
    ensures
        forall|k: int| 0 <= k < moves_at(m, v, dx, s, n).len() ==> in_v((#[trigger] moves_at(m, v, dx, s, n)[k]).terminal_velocity as int),
{
    lemma_mws_members(m, v, dx, s, NUM_V as nat);
    let all = moves_with_steps(m, v, dx, s, NUM_V as nat);
    assert forall|k: int| 0 <= k < moves_at(m, v, dx, s, n).len() implies in_v((#[trigger] moves_at(m, v, dx, s, n)[k]).terminal_velocity as int) by {
        assert(moves_at(m, v, dx, s, n)[k] == all[k]);
    }
}

proof fn lemma_step_cands_children(
    m: Seq<Seq<Seq<i32>>>,
    level: Seq<BeamState>,
    j: usize,
    dx: int,
    dy: int,
    n: int,
    lo: int,
    hi: int,
)
    requires
        j < level.len(),
        0 <= lo,
        hi <= INF + 50,
        0 <= n,
        0 <= level[j as int].num_steps <= 0x1000_0000_0000_0000,
    ensures
        forall|q: int|
            0 <= q < step_cands(m, level[j as int], j, dx, dy, n, lo, hi).len() ==> child_of(
                level,
                #[trigger] step_cands(m, level[j as int], j, dx, dy, n, lo, hi)[q],
            ),
    decreases hi - lo + 1,
{
    let b = level[j as int];
    if hi >= lo {
        lemma_step_cands_children(m, level, j, dx, dy, n, lo, hi - 1);
        let pre = step_cands(m, b, j, dx, dy, n, lo, hi - 1);
        let here = at_steps(m, b, j, dx, dy, n, hi);
        let mx = moves_at(m, b.vx as int, dx, hi as i32, n);
        let my = moves_at(m, b.vy as int, dy, hi as i32, n);
        lemma_moves_at_members(m, b.vx as int, dx, hi as i32, n);
        lemma_moves_at_members(m, b.vy as int, dy, hi as i32, n);
        if mx.len() > 0 && my.len() > 0 {
            lemma_cross_children(mx, my, (b.num_steps + hi) as i64, j);
        }
        assert forall|q: int|
            0 <= q < step_cands(m, b, j, dx, dy, n, lo, hi).len() implies child_of(
                level,
                #[trigger] step_cands(m, b, j, dx, dy, n, lo, hi)[q],
            ) by {
            if q >= pre.len() {
                assert(step_cands(m, b, j, dx, dy, n, lo, hi)[q] == here[q - pre.len()]);
            } else {
                assert(step_cands(m, b, j, dx, dy, n, lo, hi)[q] == pre[q]);
            }
        }
    }
}

proof fn lemma_level_cands_children(m: Seq<Seq<Seq<i32>>>, level: Seq<BeamState>, dx: int, dy: int, n: int, extra: int, j: int)
    requires
        table_ok(m),
        table_bounded(m),
        level_ok(level),
        0 <= n,
        0 <= extra <= 50,
        0 <= j <= level.len(),
        level.len() <= usize::MAX,
    ensures
        forall|q: int|
            0 <= q < level_cands(m, level, dx, dy, n, extra, j).len() ==> child_of(
                level,
                #[trigger] level_cands(m, level, dx, dy, n, extra, j)[q],
            ),
    decreases j,
{
    if j > 0 {
        lemma_level_cands_children(m, level, dx, dy, n, extra, j - 1);
        let pre = level_cands(m, level, dx, dy, n, extra, j - 1);
        assert((j - 1) as usize as int == j - 1);
        let b = level[j - 1];
        let here = state_cands(m, b, (j - 1) as usize, dx, dy, n, extra);
        if has_move(m, b.vx as int, dx) && has_move(m, b.vy as int, dy) {
            let fx = fewest_steps(m, b.vx as int, dx);
            let fy = fewest_steps(m, b.vy as int, dy);
            lemma_fewest_bounds(m, b.vx as int, dx);
            lemma_fewest_bounds(m, b.vy as int, dy);
            let lb = if fx >= fy { fx } else { fy };
            lemma_step_cands_children(m, level, (j - 1) as usize, dx, dy, n, lb, lb + extra);
        }
        assert forall|q: int|
            0 <= q < level_cands(m, level, dx, dy, n, extra, j).len() implies child_of(
                level,
                #[trigger] level_cands(m, level, dx, dy, n, extra, j)[q],
            ) by {
            if q >= pre.len() {
                assert(level_cands(m, level, dx, dy, n, extra, j)[q] == here[q - pre.len()]);
            } else {
                assert(level_cands(m, level, dx, dy, n, extra, j)[q] == pre[q]);
            }
        }
    }
}

proof fn lemma_fewest_bounds(m: Seq<Seq<Seq<i32>>>, v: int, dx: int)
    requires
        table_ok(m),
        table_bounded(m),
        in_v(v),
        has_move(m, v, dx),
    ensures
        0 <= fewest_steps(m, v, dx) < INF,
{
    lemma_min_lookup(m, v, dx, 100);
    let ve = choose|ve: int| in_v(ve) && #[trigger] lookup(m, v, ve, dx) != INF;
    assert(0 <= m[v - (-100)][ve - (-100)][dx - (-10000)] <= INF);
    let f = fewest_steps(m, v, dx);
    assert(f <= lookup(m, v, ve, dx));
    if f != INF {
        let w = choose|w: int| -100 <= w <= 100 && #[trigger] lookup(m, v, w, dx) == f;
        assert(0 <= m[v - (-100)][w - (-100)][dx - (-10000)] <= INF);
    }
}


/// The candidates of a beam are there only if both axes of the leg are in
/// the table.
proof fn lemma_level_cands_in_d(m: Seq<Seq<Seq<i32>>>, level: Seq<BeamState>, dx: int, dy: int, n: int, extra: int, j: int)
    ensures
        level_cands(m, level, dx, dy, n, extra, j).len() > 0 ==> in_d(dx) && in_d(dy),
    decreases j,
{
    if j > 0 {
        lemma_level_cands_in_d(m, level, dx, dy, n, extra, j - 1);
    }
}

/// The states chosen from the candidates of a beam come from its states,
/// and there are some only if both axes of the leg are in the table.
proof fn lemma_next_children(
    m: Seq<Seq<Seq<i32>>>,
    level: Seq<BeamState>,
    dx: int,
    dy: int,
    n: int,
    extra: int,
    c: Seq<BeamState>,
    r: Seq<BeamState>,
)
    requires
        table_ok(m),
        table_bounded(m),
        level_ok(level),
        0 <= n,
        0 <= extra <= 50,
        level.len() <= usize::MAX,
        c == level_cands(m, level, dx, dy, n, extra, level.len() as int),
        beam_selected(c, r),
    ensures
        forall|q: int| 0 <= q < r.len() ==> child_of(level, #[trigger] r[q]),
        r.len() > 0 ==> in_d(dx) && in_d(dy),
{
    lemma_level_cands_children(m, level, dx, dy, n, extra, level.len() as int);
    assert forall|q: int| 0 <= q < r.len() implies child_of(level, #[trigger] r[q]) by {
        let k = lemma_sel_from(c, r, q);
        assert(child_of(level, c[k]));
    }
    if r.len() > 0 {
        let k = lemma_sel_from(c, r, 0);
        lemma_level_cands_in_d(m, level, dx, dy, n, extra, level.len() as int);
    }
}

/// The states of a beam have velocities in the table and at most `bound`
/// steps.
pub open spec fn level_within(level: Seq<BeamState>, bound: int) -> bool {
    forall|j: int|
        0 <= j < level.len() ==> in_v((#[trigger] level[j]).vx as int) && in_v(level[j].vy as int) && 0
            <= level[j].num_steps <= bound
}

/// Each state of the beam after `k` checkpoints comes from a state of the
/// beam before, and the beam has states only if the leg is in the table.
pub open spec fn beam_links(m: Seq<Seq<Seq<i32>>>, cps: Seq<(i32, i32)>, k: int) -> bool {
    &&& forall|q: int|
        0 <= q < beam_at(m, cps, k).len() ==> child_of(beam_at(m, cps, k - 1), #[trigger] beam_at(m, cps, k)[q])
    &&& beam_at(m, cps, k).len() > 0 ==> in_d(leg(cps, k - 1).0) && in_d(leg(cps, k - 1).1)
}

/// The beams after up to `i` checkpoints are within their step bounds and
/// linked to the beams before them.
pub open spec fn beams_sound(m: Seq<Seq<Seq<i32>>>, cps: Seq<(i32, i32)>, i: int) -> bool {
    &&& forall|k: int| 0 <= k <= i ==> level_within(#[trigger] beam_at(m, cps, k), k * (INF + 50))
    &&& forall|k: int| 0 < k <= i ==> #[trigger] beam_links(m, cps, k)
}

/// The legs between the checkpoints fit in an `i32`.
pub open spec fn legs_fit(cps: Seq<(i32, i32)>) -> bool {
    forall|k: int|
        0 <= k < cps.len() ==> i32::MIN <= (#[trigger] leg(cps, k)).0 <= i32::MAX && i32::MIN <= leg(cps, k).1
            <= i32::MAX
}

/// The beams after each checkpoint, from the start to the last.
fn build_beams(checkpoints: &Vec<(i32, i32)>, min_steps: &Vec<Vec<Vec<i32>>>) -> (r: Vec<Vec<BeamState>>)
    requires
        table_ok(table(min_steps)),
        table_bounded(table(min_steps)),
        checkpoints.len() < 0x1000_0000,
        legs_fit(checkpoints@),
    ensures
        r.len() == checkpoints.len() + 1,
        forall|k: int| 0 <= k <= checkpoints.len() ==> (#[trigger] r@[k])@ == beam_at(table(min_steps), checkpoints@, k),
        beams_sound(table(min_steps), checkpoints@, checkpoints.len() as int),
{
    let ghost m = table(min_steps);
    let ghost cps = checkpoints@;
    let n = checkpoints.len();
    let mut beams: Vec<Vec<BeamState>> = Vec::new();
    let mut first: Vec<BeamState> = Vec::new();
    first.push(BeamState { num_steps: 0, vx: 0, vy: 0, prev_index: 0 });
    proof {
        assert(first@ =~= beam_at(m, cps, 0));
        assert(level_within(beam_at(m, cps, 0), 0 * (INF + 50)));
    }
    beams.push(first);
    let mut px: i32 = 0;
    let mut py: i32 = 0;
    let mut i: usize = 0;
    while i < n
        invariant
            m == table(min_steps),
            cps == checkpoints@,
            n == checkpoints.len(),
            table_ok(m),
            table_bounded(m),
            n < 0x1000_0000,
            legs_fit(cps),
            i <= n,
            beams.len() == i + 1,
            forall|k: int| 0 <= k <= i ==> (#[trigger] beams@[k])@ == beam_at(m, cps, k),
            beams_sound(m, cps, i as int),
            i == 0 ==> px == 0 && py == 0,
            i > 0 ==> px == cps[i - 1].0 && py == cps[i - 1].1,
        decreases n - i,
    {
        proof {
            assert(i32::MIN <= leg(cps, i as int).0 <= i32::MAX);
        }
        let dx = checkpoints[i].0 - px;
        let dy = checkpoints[i].1 - py;
        let ghost level = beam_at(m, cps, i as int);
        proof {
            assert(leg(cps, i as int) == (dx as int, dy as int));
            assert(beams@[i as int]@ == level);
            assert(level_within(level, i * (INF + 50)));
            assert(i * (INF + 50) <= 0x1000_0000_0000_0000) by (nonlinear_arith)
                requires
                    i < 0x1000_0000,
            ;
            assert(level_ok(level));
        }
        let c = level_candidates(&beams[i], dx, dy, min_steps, GET_MOVES_MAX_RESULTS, 10);
        let next = if c.len() > 0 {
            let r1 = select_beam(&c);
            proof {
                lemma_next_children(m, level, dx as int, dy as int, 10, 10, c@, r1@);
            }
            r1
        } else {
            let c2 = level_candidates(&beams[i], dx, dy, min_steps, 2 * GET_MOVES_MAX_RESULTS, 50);
            let r2 = select_beam(&c2);
            proof {
                lemma_next_children(m, level, dx as int, dy as int, 20, 50, c2@, r2@);
            }
            r2
        };
        proof {
            assert(next@ == next_beam(m, level, dx as int, dy as int));
            assert(next@ == beam_at(m, cps, i + 1));
            assert(beam_links(m, cps, i + 1));
            assert((i + 1) * (INF + 50) == i * (INF + 50) + INF + 50) by (nonlinear_arith);
            assert forall|q: int| 0 <= q < next@.len() implies in_v((#[trigger] next@[q]).vx as int) && in_v(
                next@[q].vy as int,
            ) && 0 <= next@[q].num_steps <= (i + 1) * (INF + 50) by {
                assert(child_of(level, next@[q]));
                assert(0 <= level[next@[q].prev_index as int].num_steps <= i * (INF + 50));
            }
            assert(level_within(beam_at(m, cps, i + 1), (i + 1) * (INF + 50)));
        }
        let ghost old_beams = beams@;
        beams.push(next);
        px = checkpoints[i].0;
        py = checkpoints[i].1;
        i = i + 1;
        proof {
            assert forall|k: int| 0 <= k <= i implies (#[trigger] beams@[k])@ == beam_at(m, cps, k) by {
                if k < i {
                    assert(beams@[k] == old_beams[k]);
                }
            }
            assert forall|k: int| 0 <= k <= i implies level_within(#[trigger] beam_at(m, cps, k), k * (INF + 50)) by {
            }
            assert forall|k: int| 0 < k <= i implies #[trigger] beam_links(m, cps, k) by {
            }
        }
    }
    beams
}

/// The states chosen back from the last beam, the last first: the state at
/// `n - t` is the one chosen after `t` checkpoints.
fn chosen_states(beams: &Vec<Vec<BeamState>>, Ghost(m): Ghost<Seq<Seq<Seq<i32>>>>, Ghost(cps): Ghost<Seq<(i32, i32)>>) -> (r: Vec<BeamState>)
    requires
        beams.len() == cps.len() + 1,
        forall|k: int| 0 <= k <= cps.len() ==> (#[trigger] beams@[k])@ == beam_at(m, cps, k),
        beams_sound(m, cps, cps.len() as int),
        beam_at(m, cps, cps.len() as int).len() > 0,
    ensures
        r.len() == cps.len() + 1,
        forall|t: int|
            0 <= t <= cps.len() ==> r@[cps.len() - t] == #[trigger] chosen(m, cps, t) && pick(m, cps, t) < beam_at(
                m,
                cps,
                t,
            ).len(),
{
    let n = beams.len() - 1;
    let mut rev: Vec<BeamState> = Vec::new();
    let mut idx: usize = 0;
    let mut k: usize = n;
    while k > 0
        invariant
            n == cps.len(),
            beams.len() == n + 1,
            forall|t: int| 0 <= t <= n ==> (#[trigger] beams@[t])@ == beam_at(m, cps, t),
            beams_sound(m, cps, n as int),
            k <= n,
            idx == pick(m, cps, k as int),
            idx < beam_at(m, cps, k as int).len(),
            rev.len() == n - k,
            forall|t: int|
                k < t <= n ==> rev@[n - t] == #[trigger] chosen(m, cps, t) && pick(m, cps, t) < beam_at(m, cps, t).len(),
        decreases k,
    {
        assert(beams@[k as int]@ == beam_at(m, cps, k as int));
        let b = beams[k][idx];
        proof {
            assert(beam_links(m, cps, k as int));
            assert(child_of(beam_at(m, cps, k - 1), beam_at(m, cps, k as int)[idx as int]));
            assert(pick(m, cps, k - 1) == b.prev_index);
            assert(b == chosen(m, cps, k as int));
        }
        let ghost before = rev@;
        let ghost old_k = k;
        let ghost old_idx = idx;
        rev.push(b);
        idx = b.prev_index;
        k = k - 1;
        proof {
            assert(pick(m, cps, old_k as int) == old_idx);
            assert(rev@[n - old_k] == b);
            assert forall|t: int| k < t <= n implies rev@[n - t] == #[trigger] chosen(m, cps, t) && pick(m, cps, t)
                < beam_at(m, cps, t).len() by {
                if t > old_k {
                    assert(rev@[n - t] == before[n - t]);
                }
            }
        }
    }
    assert(beams@[0]@ == beam_at(m, cps, 0));
    let b0 = beams[0][idx];
    let ghost before = rev@;
    rev.push(b0);
    proof {
        assert(b0 == chosen(m, cps, 0));
        assert forall|t: int| 0 <= t <= n implies rev@[n - t] == #[trigger] chosen(m, cps, t) && pick(m, cps, t)
            < beam_at(m, cps, t).len() by {
            if t > 0 {
                assert(rev@[n - t] == before[n - t]);
                assert(before[n - t] == chosen(m, cps, t));
                assert(pick(m, cps, t) < beam_at(m, cps, t).len());
            } else {
                assert(rev@[n as int] == b0);
                assert(pick(m, cps, 0) == idx);
                assert(rev@[n - t] == chosen(m, cps, t));
                assert(pick(m, cps, t) < beam_at(m, cps, t).len());
            }
        }
    }
    rev
}

/// The keypad digit of a thrust along each axis.
fn key_of(ax: i32, ay: i32) -> (c: char)
    requires
        -1 <= ax <= 1,
        -1 <= ay <= 1,
    ensures
        c == key_digit(ax as int, ay as int),
{
    if ay == -1 {
        if ax == -1 {
            '1'
        } else if ax == 0 {
            '2'
        } else {
            '3'
        }
    } else if ay == 0 {
        if ax == -1 {
            '4'
        } else if ax == 0 {
            '5'
        } else {
            '6'
        }
    } else {
        if ax == -1 {
            '7'
        } else if ax == 0 {
            '8'
        } else {
            '9'
        }
    }
}

proof fn lemma_route_none(m: Seq<Seq<Seq<i32>>>, cps: Seq<(i32, i32)>, k: int, k2: int)
    requires
        0 <= k <= k2,
        route_keys(m, cps, k) is None,
    ensures
        route_keys(m, cps, k2) is None,
    decreases k2 - k,
{
    if k2 > k {
        lemma_route_none(m, cps, k, k2 - 1);
    }
}

/// The route through the checkpoints found by the beam search, as keypad
/// digits (see `beam_route`): `None` where the last beam is empty or the
/// thrusts of a leg along y run short of those along x. The bound on the
/// number of checkpoints keeps the `i64` step count of every beam state,
/// which grows by at most `INF + 50` a leg, below 2^60.
pub fn solve_one(checkpoints: &Vec<(i32, i32)>, min_steps: &Vec<Vec<Vec<i32>>>) -> (r: Option<String>)
    requires
        table_ok(table(min_steps)),
        table_bounded(table(min_steps)),
        checkpoints.len() < 0x1000_0000,
        legs_fit(checkpoints@),
    ensures
        match r {
            Some(s) => beam_route(table(min_steps), checkpoints@) == Some(s@),
            None => beam_route(table(min_steps), checkpoints@) is None,
        },
{
    let ghost m = table(min_steps);
    let ghost cps = checkpoints@;
    let n = checkpoints.len();
    let beams = build_beams(checkpoints, min_steps);
    assert(beams@[n as int]@ == beam_at(m, cps, n as int));
    if beams[n].len() == 0 {
        return None;
    }
    let rev = chosen_states(&beams, Ghost(m), Ghost(cps));
    let mut keys: Vec<char> = Vec::new();
    let mut cx: i32 = 0;
    let mut cy: i32 = 0;
    let mut i: usize = 0;
    while i < n
        invariant
            m == table(min_steps),
            cps == checkpoints@,
            n == checkpoints.len(),
            table_ok(m),
            legs_fit(cps),
            beams_sound(m, cps, n as int),
            rev.len() == n + 1,
            forall|t: int| 0 <= t <= n ==> rev@[n - t] == #[trigger] chosen(m, cps, t) && pick(m, cps, t) < beam_at(m, cps, t).len(),
            i <= n,
            route_keys(m, cps, i as int) == Some(keys@),
            i == 0 ==> cx == 0 && cy == 0,
            i > 0 ==> cx == cps[i - 1].0 && cy == cps[i - 1].1,
        decreases n - i,
    {
        let a = rev[n - i];
        let b = rev[n - i - 1];
        proof {
            assert(i32::MIN <= leg(cps, i as int).0 <= i32::MAX);
            assert(a == chosen(m, cps, i as int));
            assert(b == chosen(m, cps, i + 1));
            assert(pick(m, cps, i as int) == b.prev_index);
            assert(beam_links(m, cps, i + 1));
            assert(child_of(beam_at(m, cps, i as int), b));
            assert(level_within(beam_at(m, cps, i as int), i * (INF + 50)));
            assert(level_within(beam_at(m, cps, i + 1), (i + 1) * (INF + 50)));
            assert(in_v(a.vx as int) && in_v(a.vy as int));
            assert(in_v(b.vx as int) && in_v(b.vy as int));
            assert(in_d(leg(cps, i as int).0) && in_d(leg(cps, i as int).1));
        }
        let dx = checkpoints[i].0 - cx;
        let dy = checkpoints[i].1 - cy;
        let steps = (b.num_steps - a.num_steps) as i32;
        let xs = reconstruct_steps(dx, a.vx, b.vx, steps, min_steps);
        let ys = reconstruct_steps(dy, a.vy, b.vy, steps, min_steps);
        proof {
            assert(leg(cps, i as int) == (dx as int, dy as int));
            assert(steps == b.num_steps - a.num_steps);
        }
        if ys.len() < xs.len() {
            proof {
                assert(leg_keys(m, cps, i as int) is None);
                lemma_route_none(m, cps, i + 1, n as int);
            }
            return None;
        }
        let ghost before = keys@;
        let mut j: usize = 0;
        while j < xs.len()
            invariant
                j <= xs.len(),
                xs.len() <= ys.len(),
                forall|t: int| 0 <= t < xs.len() ==> -1 <= #[trigger] xs@[t] <= 1,
                forall|t: int| 0 <= t < ys.len() ==> -1 <= #[trigger] ys@[t] <= 1,
                keys@ == before + Seq::new(j as nat, |t: int| key_digit(xs@[t] as int, ys@[t] as int)),
            decreases xs.len() - j,
        {
            let c = key_of(xs[j], ys[j]);
            keys.push(c);
            j = j + 1;
            assert(keys@ =~= before + Seq::new(j as nat, |t: int| key_digit(xs@[t] as int, ys@[t] as int)));
        }
        proof {
            assert(leg_keys(m, cps, i as int) == Some(Seq::new(xs.len() as nat, |t: int| key_digit(xs@[t] as int, ys@[t] as int))));
            assert(route_keys(m, cps, i + 1) == Some(keys@));
        }
        cx = checkpoints[i].0;
        cy = checkpoints[i].1;
        i = i + 1;
    }
    Some(string_of(&keys))
}

} // verus!
