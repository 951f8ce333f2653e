//! Visiting orders of the checkpoints: the nearest point not yet visited
//! next, by the Chebyshev distance.
use vstd::prelude::*;

use crate::boxes::{lemma_row_mark, row_unmarked};
use crate::spaceship::{chebyshev, iabs, surrogate_cost};

verus! {

/// Among the first `n` points, the first one not yet visited whose distance
/// from `cur` is less than that of every one before it, with its distance;
/// `(None, i32::MAX)` when there is none.
pub open spec fn cheapest_upto(v: Seq<(i32, i32)>, visited: Seq<bool>, cur: (i32, i32), n: int) -> (Option<int>, int)
    decreases n,
{
    if n <= 0 {
        (None, i32::MAX as int)
    } else {
        let (b, d) = cheapest_upto(v, visited, cur, n - 1);
        let c = chebyshev(cur, v[n - 1]);
        if !visited[n - 1] && c < d {
            (Some(n - 1), c)
        } else {
            (b, d)
        }
    }
}

/// The next `k` points of the greedy order from `cur`, each the nearest one
/// not yet visited (see `cheapest_upto`).
pub open spec fn greedy_order(v: Seq<(i32, i32)>, visited: Seq<bool>, cur: (i32, i32), k: nat) -> Seq<usize>
    decreases k,
{
    if k == 0 {
        Seq::empty()
    } else {
        match cheapest_upto(v, visited, cur, v.len() as int).0 {
            Some(i) => seq![i as usize] + greedy_order(v, visited.update(i, true), v[i], (k - 1) as nat),
            None => Seq::empty(),
        }
    }
}

/// Points whose distances stay well within `i32`.
pub open spec fn small_points(v: Seq<(i32, i32)>) -> bool {
    forall|i: int| 0 <= i < v.len() ==> iabs((#[trigger] v[i]).0 as int) <= 0x2000_0000 && iabs(v[i].1 as int) <= 0x2000_0000
}

proof fn lemma_cheapest(v: Seq<(i32, i32)>, visited: Seq<bool>, cur: (i32, i32), n: int)
    ensures
        cheapest_upto(v, visited, cur, n).0 matches Some(i) ==> 0 <= i < n && !visited[i],
        cheapest_upto(v, visited, cur, n).0 is None ==> cheapest_upto(v, visited, cur, n).1 == i32::MAX,
    decreases n,
{
    if n > 0 {
        lemma_cheapest(v, visited, cur, n - 1);
    }
}

proof fn lemma_some_unmarked(r: Seq<bool>)
    requires
        row_unmarked(r) > 0,
    ensures
        exists|j: int| 0 <= j < r.len() && !r[j],
    decreases r.len(),
{
    if !r.last() {
        assert(!r[r.len() - 1]);
    } else {
        lemma_some_unmarked(r.drop_last());
        let j = choose|j: int| 0 <= j < r.len() - 1 && !r.drop_last()[j];
        assert(!r[j]);
    }
}

proof fn lemma_all_unmarked(n: nat)
    ensures
        row_unmarked(Seq::new(n, |i: int| false)) == n,
    decreases n,
{
    if n > 0 {
        assert(Seq::new(n, |i: int| false).drop_last() =~= Seq::new((n - 1) as nat, |i: int| false));
        lemma_all_unmarked((n - 1) as nat);
    }
}

/// The visiting order that always goes to the nearest point not yet visited
/// (see `greedy_order`), from the origin.
pub fn greedy_initial_solution(v: Vec<(i32, i32)>) -> (r: Vec<usize>)
    requires
        small_points(v@),
    ensures
        r@ == greedy_order(v@, Seq::new(v.len() as nat, |i: int| false), (0, 0), v.len() as nat),
        r.len() == v.len(),
        r@.no_duplicates(),
        forall|i: int| 0 <= i < r.len() ==> #[trigger] r@[i] < v.len(),
{
    let n = v.len();
    let mut curpt: (i32, i32) = (0, 0);
    let mut visited: Vec<bool> = Vec::new();
    while visited.len() < n
        invariant
            visited.len() <= n,
            visited@ == Seq::new(visited.len() as nat, |i: int| false),
        decreases n - visited.len(),
    {
        visited.push(false);
        assert(visited@ =~= Seq::new(visited.len() as nat, |i: int| false));
    }
    proof {
        lemma_all_unmarked(n as nat);
    }
    let mut ret: Vec<usize> = Vec::new();
    let mut k: usize = 0;
    while k < n
        invariant
            n == v.len(),
            small_points(v@),
            k <= n,
            visited.len() == n,
            row_unmarked(visited@) == n - k,
            ret.len() == k,
            forall|j: int| 0 <= j < ret.len() ==> (#[trigger] ret@[j]) < n && visited@[ret@[j] as int],
            ret@.no_duplicates(),
            iabs(curpt.0 as int) <= 0x2000_0000,
            iabs(curpt.1 as int) <= 0x2000_0000,
            ret@ + greedy_order(v@, visited@, curpt, (n - k) as nat) == greedy_order(
                v@,
                Seq::new(n as nat, |i: int| false),
                (0, 0),
                n as nat,
            ),
        decreases n - k,
    {
        let mut best: Option<usize> = None;
        let mut bestdist: i32 = i32::MAX;
        let mut p: usize = 0;
        while p < n
            invariant
                n == v.len(),
                small_points(v@),
                visited.len() == n,
                p <= n,
                iabs(curpt.0 as int) <= 0x2000_0000,
                iabs(curpt.1 as int) <= 0x2000_0000,
                (match best {
                    Some(b) => Some(b as int),
                    None => None,
                }, bestdist as int) == cheapest_upto(v@, visited@, curpt, p as int),
                best matches Some(b) ==> b < n,
                best is None ==> bestdist == i32::MAX,
                (exists|j: int| 0 <= j < p && !visited@[j]) ==> best is Some,
            decreases n - p,
        {
            if !visited[p] {
                assert(iabs(v@[p as int].0 as int) <= 0x2000_0000 && iabs(v@[p as int].1 as int) <= 0x2000_0000);
                let c = surrogate_cost(curpt, v[p]);
                assert(c <= 0x4000_0000);
                if c < bestdist {
                    best = Some(p);
                    bestdist = c;
                }
            }
            p = p + 1;
        }
        proof {
            lemma_some_unmarked(visited@);
        }
        let b = best.unwrap();
        proof {
            lemma_cheapest(v@, visited@, curpt, n as int);
            lemma_row_mark(visited@, b as int);
            assert(greedy_order(v@, visited@, curpt, (n - k) as nat) == seq![b] + greedy_order(
                v@,
                visited@.update(b as int, true),
                v@[b as int],
                (n - k - 1) as nat,
            ));
        }
        let ghost before = ret@;
        let ghost vis0 = visited@;
        assert(!vis0[b as int]);
        visited.set(b, true);
        ret.push(b);
        proof {
            assert forall|j: int| 0 <= j < ret.len() implies (#[trigger] ret@[j]) < n && visited@[ret@[j] as int] by {
                if j < before.len() {
                    assert(ret@[j] == before[j]);
                }
            }
            assert forall|i: int, j: int| 0 <= i < j < ret.len() implies ret@[i] != ret@[j] by {
                if j == before.len() {
                    assert(vis0[before[i] as int]);
                } else {
                    assert(before[i] != before[j]);
                }
            }
        }
        curpt = v[b];
        k = k + 1;
        proof {
            assert(iabs(curpt.0 as int) <= 0x2000_0000);
            assert(ret@ + greedy_order(v@, visited@, curpt, (n - k) as nat) =~= before + (seq![b] + greedy_order(
                v@,
                visited@,
                curpt,
                (n - k) as nat,
            )));
        }
    }
    proof {
        assert(ret@ + Seq::<usize>::empty() =~= ret@);
    }
    ret
}

} // verus!
