//! The groups of cells of a board of the two-dimensional language and the
//! rectangles that bound them: operators join their four neighbours, arrows
//! the two along their axis, and any other cell an operator to its right or
//! below it.
use std::collections::VecDeque;
use vstd::prelude::*;

use crate::planar::{flags_shape, g_inside, grid_of, inside, set_flag, sized, Cell, State, Tile};

verus! {

/// The operators that a value flows into.
pub open spec fn operator_tile(t: Tile) -> bool {
    t is Plus || t is Minus || t is Mul || t is Div || t is Eq || t is Neq || t is Warp
}

/// The cells that join all four of their neighbours.
pub open spec fn spreads(t: Tile) -> bool {
    operator_tile(t) || t is Rem
}

/// The flood steps from the cell `c` of the board `g` to the cell `n`.
pub open spec fn floods(g: Seq<Seq<Tile>>, c: (int, int), n: (int, int)) -> bool {
    let t = g[c.1][c.0];
    &&& g_inside(g, n.0, n.1)
    &&& if spreads(t) {
        n == (c.0 - 1, c.1) || n == (c.0, c.1 - 1) || n == (c.0 + 1, c.1) || n == (c.0, c.1 + 1)
    } else if t is Up || t is Down {
        n == (c.0, c.1 - 1) || n == (c.0, c.1 + 1)
    } else if t is Left || t is Right {
        n == (c.0 - 1, c.1) || n == (c.0 + 1, c.1)
    } else {
        (n == (c.0 + 1, c.1) || n == (c.0, c.1 + 1)) && operator_tile(g[n.1][n.0])
    }
}

/// The flag of the cell `c`.
pub open spec fn flag_at(f: Seq<Seq<bool>>, c: (int, int)) -> bool {
    f[c.1][c.0]
}

/// The rows of flags.
pub open spec fn flags(v: &Vec<Vec<bool>>) -> Seq<Seq<bool>> {
    v@.map_values(|r: Vec<bool>| r@)
}

/// `p` is a walk of flood steps whose cells after the first are not in
/// `v0`.
pub open spec fn flood_path(g: Seq<Seq<Tile>>, v0: Seq<Seq<bool>>, p: Seq<(int, int)>) -> bool {
    &&& p.len() > 0
    &&& forall|i: int| 0 <= i < p.len() - 1 ==> #[trigger] floods(g, p[i], p[i + 1])
    &&& forall|i: int| 1 <= i < p.len() ==> !flag_at(v0, #[trigger] p[i])
}

/// The flood from `s` reaches `c` without entering a cell of `v0`.
pub open spec fn flooded(g: Seq<Seq<Tile>>, v0: Seq<Seq<bool>>, s: (int, int), c: (int, int)) -> bool {
    exists|p: Seq<(int, int)>| #[trigger] flood_path(g, v0, p) && p[0] == s && p.last() == c
}

proof fn lemma_flood_start(g: Seq<Seq<Tile>>, v0: Seq<Seq<bool>>, s: (int, int))
    ensures
        flooded(g, v0, s, s),
{
    let p = seq![s];
    assert(flood_path(g, v0, p));
}

proof fn lemma_flood_step(g: Seq<Seq<Tile>>, v0: Seq<Seq<bool>>, s: (int, int), c: (int, int), n: (int, int))
    requires
        flooded(g, v0, s, c),
        floods(g, c, n),
        !flag_at(v0, n),
    ensures
        flooded(g, v0, s, n),
{
    let p = choose|p: Seq<(int, int)>| #[trigger] flood_path(g, v0, p) && p[0] == s && p.last() == c;
    let q = p.push(n);
    assert forall|i: int| 0 <= i < q.len() - 1 implies #[trigger] floods(g, q[i], q[i + 1]) by {
        if i < p.len() - 1 {
            assert(q[i] == p[i] && q[i + 1] == p[i + 1]);
            assert(floods(g, p[i], p[i + 1]));
        }
    }
    assert forall|i: int| 1 <= i < q.len() implies !flag_at(v0, #[trigger] q[i]) by {
        if i < p.len() {
            assert(q[i] == p[i]);
        }
    }
    assert(flood_path(g, v0, q));
}

/// The cell belongs to the group being flooded from `s`: it is `s`, or it
/// was marked and was not before.
pub open spec fn ours(v0: Seq<Seq<bool>>, f: Seq<Seq<bool>>, s: (int, int), c: (int, int)) -> bool {
    c == s || (flag_at(f, c) && !flag_at(v0, c))
}

/// `c` is waiting in the queue.
pub open spec fn in_q(q: Seq<(i32, i32)>, c: (int, int)) -> bool {
    exists|k: int| 0 <= k < q.len() && (#[trigger] q[k]).0 == c.0 && q[k].1 == c.1
}

/// Every cell that `c` floods to is marked.
pub open spec fn expanded(g: Seq<Seq<Tile>>, f: Seq<Seq<bool>>, c: (int, int)) -> bool {
    forall|n: (int, int)| #[trigger] floods(g, c, n) ==> flag_at(f, n)
}

/// `c` lies in the rectangle `(min x, min y, max x, max y)`.
pub open spec fn in_box(c: (int, int), b: (int, int, int, int)) -> bool {
    b.0 <= c.0 <= b.2 && b.1 <= c.1 <= b.3
}

/// A queue entry as a cell.
pub open spec fn cell_of(e: (i32, i32)) -> (int, int) {
    (e.0 as int, e.1 as int)
}

/// What holds between the steps of the flood from `s` over `g`, with `v0`
/// the marks before it, `f` the marks now, `q` the queue and `b` the
/// rectangle so far.
pub open spec fn flood_inv(
    g: Seq<Seq<Tile>>,
    v0: Seq<Seq<bool>>,
    s: (int, int),
    f: Seq<Seq<bool>>,
    q: Seq<(i32, i32)>,
    b: (int, int, int, int),
) -> bool {
    &&& flags_shape(f, g.len() as int, g[0].len() as int)
    &&& flag_at(f, s)
    &&& forall|cx: int, cy: int| g_inside(g, cx, cy) && flag_at(v0, (cx, cy)) ==> #[trigger] flag_at(f, (cx, cy))
    &&& forall|cx: int, cy: int|
        g_inside(g, cx, cy) && #[trigger] ours(v0, f, s, (cx, cy)) ==> flooded(g, v0, s, (cx, cy))
    &&& forall|k: int|
        0 <= k < q.len() ==> g_inside(g, (#[trigger] q[k]).0 as int, q[k].1 as int) && ours(v0, f, s, cell_of(q[k]))
            && flag_at(f, cell_of(q[k]))
    &&& forall|k1: int, k2: int| 0 <= k1 < k2 < q.len() ==> #[trigger] q[k1] != #[trigger] q[k2]
    &&& forall|cx: int, cy: int|
        g_inside(g, cx, cy) && #[trigger] ours(v0, f, s, (cx, cy)) && !in_q(q, (cx, cy)) ==> expanded(g, f, (cx, cy))
            && in_box((cx, cy), b)
}

/// What holds while the cell `c`, just taken from the queue, is being
/// expanded: as `flood_inv`, except that `c` need not be expanded yet.
pub open spec fn flood_part(
    g: Seq<Seq<Tile>>,
    v0: Seq<Seq<bool>>,
    s: (int, int),
    f: Seq<Seq<bool>>,
    q: Seq<(i32, i32)>,
    b: (int, int, int, int),
    c: (int, int),
) -> bool {
    &&& flags_shape(f, g.len() as int, g[0].len() as int)
    &&& flag_at(f, s)
    &&& forall|cx: int, cy: int| g_inside(g, cx, cy) && flag_at(v0, (cx, cy)) ==> #[trigger] flag_at(f, (cx, cy))
    &&& forall|cx: int, cy: int|
        g_inside(g, cx, cy) && #[trigger] ours(v0, f, s, (cx, cy)) ==> flooded(g, v0, s, (cx, cy))
    &&& forall|k: int|
        0 <= k < q.len() ==> g_inside(g, (#[trigger] q[k]).0 as int, q[k].1 as int) && ours(v0, f, s, cell_of(q[k]))
            && flag_at(f, cell_of(q[k]))
    &&& forall|k1: int, k2: int| 0 <= k1 < k2 < q.len() ==> #[trigger] q[k1] != #[trigger] q[k2]
    &&& g_inside(g, c.0, c.1) && ours(v0, f, s, c) && flag_at(f, c) && in_box(c, b) && !in_q(q, c)
    &&& forall|cx: int, cy: int|
        g_inside(g, cx, cy) && #[trigger] ours(v0, f, s, (cx, cy)) && !in_q(q, (cx, cy)) && (cx, cy) != c
            ==> expanded(g, f, (cx, cy)) && in_box((cx, cy), b)
}

/// The marks of `f2` include those of `f1`.
pub open spec fn marks_grow(g: Seq<Seq<Tile>>, f1: Seq<Seq<bool>>, f2: Seq<Seq<bool>>) -> bool {
    forall|cx: int, cy: int| g_inside(g, cx, cy) && flag_at(f1, (cx, cy)) ==> #[trigger] flag_at(f2, (cx, cy))
}

/// The cells not marked in a row.
pub open spec fn row_unmarked(r: Seq<bool>) -> nat
    decreases r.len(),
{
    if r.len() == 0 {
        0
    } else {
        row_unmarked(r.drop_last()) + if r.last() {
            0nat
        } else {
            1nat
        }
    }
}

/// The cells not marked.
pub open spec fn unmarked(f: Seq<Seq<bool>>) -> nat
    decreases f.len(),
{
    if f.len() == 0 {
        0
    } else {
        unmarked(f.drop_last()) + row_unmarked(f.last())
    }
}

pub(crate) proof fn lemma_row_mark(r: Seq<bool>, j: int)
    requires
        0 <= j < r.len(),
        !r[j],
    ensures
        row_unmarked(r.update(j, true)) + 1 == row_unmarked(r),
    decreases r.len(),
{
    if j < r.len() - 1 {
        assert(r.update(j, true).drop_last() =~= r.drop_last().update(j, true));
        lemma_row_mark(r.drop_last(), j);
    } else {
        assert(r.update(j, true).drop_last() =~= r.drop_last());
    }
}

proof fn lemma_mark(f: Seq<Seq<bool>>, i: int, j: int)
    requires
        0 <= i < f.len(),
        0 <= j < f[i].len(),
        !f[i][j],
    ensures
        unmarked(f.update(i, f[i].update(j, true))) + 1 == unmarked(f),
    decreases f.len(),
{
    let f2 = f.update(i, f[i].update(j, true));
    if i < f.len() - 1 {
        assert(f2.drop_last() =~= f.drop_last().update(i, f[i].update(j, true)));
        lemma_mark(f.drop_last(), i, j);
    } else {
        assert(f2.drop_last() =~= f.drop_last());
        lemma_row_mark(f[i], j);
    }
}

/// Whether the cell is an operator that a value flows into.
fn is_operator(c: &Cell) -> (r: bool)
    ensures
        r == operator_tile(c@),
{
    match c {
        Cell::Plus | Cell::Minus | Cell::Mul | Cell::Div | Cell::Eq | Cell::Neq | Cell::Warp(_) => true,
        _ => false,
    }
}

/// Marks the cell `(nx, ny)` and queues it, if it is on the board, not yet
/// marked, and an operator where `need_op`.
fn visit(
    board: &Vec<Vec<Cell>>,
    visited: &mut Vec<Vec<bool>>,
    q: &mut VecDeque<(i32, i32)>,
    nx: i32,
    ny: i32,
    need_op: bool,
)
    requires
        sized(grid_of(board), board.len() as int, board@[0].len() as int),
        flags_shape(flags(old(visited)), board.len() as int, board@[0].len() as int),
    ensures
        ({
            let g = grid_of(board);
            let f0 = flags(old(visited));
            let take = g_inside(g, nx as int, ny as int) && (need_op ==> operator_tile(g[ny as int][nx as int]))
                && !flag_at(f0, (nx as int, ny as int));
            &&& take ==> flags(final(visited)) == f0.update(ny as int, f0[ny as int].update(nx as int, true))
                && final(q)@ == old(q)@.push((nx, ny))
            &&& !take ==> flags(final(visited)) == f0 && final(q)@ == old(q)@
        }),
{
    let ghost g = grid_of(board);
    if !inside(board, nx, ny) {
        return;
    }
    assert(board@[ny as int].len() == board@[0].len()) by {
        assert(g[ny as int].len() == g[0].len());
    }
    assert(grid_of(board)[ny as int][nx as int] == board@[ny as int]@[nx as int]@);
    if need_op && !is_operator(&board[ny as usize][nx as usize]) {
        return;
    }
    assert(visited@[ny as int]@ == flags(visited)[ny as int]);
    if visited[ny as usize][nx as usize] {
        return;
    }
    set_flag(visited, nx as usize, ny as usize);
    q.push_back((nx, ny));
}

/// The rectangle `b` grown to hold `c`.
pub open spec fn grow_box(b: (int, int, int, int), c: (int, int)) -> (int, int, int, int) {
    (
        if c.0 < b.0 { c.0 } else { b.0 },
        if c.1 < b.1 { c.1 } else { b.1 },
        if c.0 > b.2 { c.0 } else { b.2 },
        if c.1 > b.3 { c.1 } else { b.3 },
    )
}

proof fn lemma_pop(
    g: Seq<Seq<Tile>>,
    v0: Seq<Seq<bool>>,
    s: (int, int),
    f: Seq<Seq<bool>>,
    q: Seq<(i32, i32)>,
    b: (int, int, int, int),
)
    requires
        flood_inv(g, v0, s, f, q, b),
        q.len() > 0,
    ensures
        flood_part(g, v0, s, f, q.drop_first(), grow_box(b, cell_of(q[0])), cell_of(q[0])),
{
    let c = cell_of(q[0]);
    let q2 = q.drop_first();
    let b2 = grow_box(b, c);
    assert(g_inside(g, q[0].0 as int, q[0].1 as int));
    assert forall|k: int| 0 <= k < q2.len() implies g_inside(g, (#[trigger] q2[k]).0 as int, q2[k].1 as int) && ours(
        v0,
        f,
        s,
        cell_of(q2[k]),
    ) && flag_at(f, cell_of(q2[k])) by {
        assert(q2[k] == q[k + 1]);
    }
    assert forall|k1: int, k2: int| 0 <= k1 < k2 < q2.len() implies #[trigger] q2[k1] != #[trigger] q2[k2] by {
        assert(q2[k1] == q[k1 + 1] && q2[k2] == q[k2 + 1]);
    }
    assert(!in_q(q2, c)) by {
        if in_q(q2, c) {
            let k = choose|k: int| 0 <= k < q2.len() && (#[trigger] q2[k]).0 == c.0 && q2[k].1 == c.1;
            assert(q2[k] == q[k + 1]);
            assert(q[k + 1] == q[0]);
        }
    }
    assert forall|cx: int, cy: int|
        g_inside(g, cx, cy) && #[trigger] ours(v0, f, s, (cx, cy)) && !in_q(q2, (cx, cy)) && (cx, cy) != c
            implies expanded(g, f, (cx, cy)) && in_box((cx, cy), b2) by {
        if in_q(q, (cx, cy)) {
            let k = choose|k: int| 0 <= k < q.len() && (#[trigger] q[k]).0 == cx && q[k].1 == cy;
            if k > 0 {
                assert(q2[k - 1] == q[k]);
            }
        }
    }
}

proof fn lemma_visit(
    g: Seq<Seq<Tile>>,
    v0: Seq<Seq<bool>>,
    s: (int, int),
    f: Seq<Seq<bool>>,
    q: Seq<(i32, i32)>,
    b: (int, int, int, int),
    c: (int, int),
    f2: Seq<Seq<bool>>,
    q2: Seq<(i32, i32)>,
    nx: i32,
    ny: i32,
    need_op: bool,
)
    requires
        flood_part(g, v0, s, f, q, b, c),
        g.len() > 0,
        g_inside(g, s.0, s.1),
        flags_shape(v0, g.len() as int, g[0].len() as int),
        ({
            let take = g_inside(g, nx as int, ny as int) && (need_op ==> operator_tile(g[ny as int][nx as int]))
                && !flag_at(f, (nx as int, ny as int));
            &&& take ==> f2 == f.update(ny as int, f[ny as int].update(nx as int, true)) && q2 == q.push((nx, ny))
            &&& !take ==> f2 == f && q2 == q
            &&& take ==> floods(g, c, (nx as int, ny as int))
        }),
    ensures
        flood_part(g, v0, s, f2, q2, b, c),
        marks_grow(g, f, f2),
        g_inside(g, nx as int, ny as int) && (need_op ==> operator_tile(g[ny as int][nx as int])) ==> flag_at(
            f2,
            (nx as int, ny as int),
        ),
        unmarked(f2) + q2.len() <= unmarked(f) + q.len(),
        unmarked(f2) <= unmarked(f),
{
    let n = (nx as int, ny as int);
    let take = g_inside(g, nx as int, ny as int) && (need_op ==> operator_tile(g[ny as int][nx as int])) && !flag_at(
        f,
        n,
    );
    if take {
        assert forall|cx: int, cy: int| g_inside(g, cx, cy) && flag_at(f, (cx, cy)) implies #[trigger] flag_at(
            f2,
            (cx, cy),
        ) by {}
        lemma_mark(f, ny as int, nx as int);
        assert(flag_at(f2, s));
        assert(!flag_at(v0, n));
        assert(flooded(g, v0, s, c));
        lemma_flood_step(g, v0, s, c, n);
        assert forall|cx: int, cy: int| g_inside(g, cx, cy) && #[trigger] ours(v0, f2, s, (cx, cy)) implies flooded(
            g,
            v0,
            s,
            (cx, cy),
        ) by {
            if (cx, cy) != n {
                assert(ours(v0, f, s, (cx, cy)));
            }
        }
        assert forall|k: int| 0 <= k < q2.len() implies g_inside(g, (#[trigger] q2[k]).0 as int, q2[k].1 as int)
            && ours(v0, f2, s, cell_of(q2[k])) && flag_at(f2, cell_of(q2[k])) by {
            if k < q.len() {
                assert(q2[k] == q[k]);
            }
        }
        assert forall|k1: int, k2: int| 0 <= k1 < k2 < q2.len() implies #[trigger] q2[k1] != #[trigger] q2[k2] by {
            if k2 == q.len() {
                assert(q2[k1] == q[k1]);
                assert(flag_at(f, cell_of(q[k1])));
            } else {
                assert(q2[k1] == q[k1] && q2[k2] == q[k2]);
            }
        }
        assert(!in_q(q2, c)) by {
            if in_q(q2, c) {
                let k = choose|k: int| 0 <= k < q2.len() && (#[trigger] q2[k]).0 == c.0 && q2[k].1 == c.1;
                if k < q.len() {
                    assert(q2[k] == q[k]);
                }
            }
        }
        assert forall|cx: int, cy: int|
            g_inside(g, cx, cy) && #[trigger] ours(v0, f2, s, (cx, cy)) && !in_q(q2, (cx, cy)) && (cx, cy) != c
                implies expanded(g, f2, (cx, cy)) && in_box((cx, cy), b) by {
            assert(q2[q.len() as int] == (nx, ny));
            assert((cx, cy) != n);
            assert(ours(v0, f, s, (cx, cy)));
            assert(!in_q(q, (cx, cy))) by {
                if in_q(q, (cx, cy)) {
                    let k = choose|k: int| 0 <= k < q.len() && (#[trigger] q[k]).0 == cx && q[k].1 == cy;
                    assert(q2[k] == q[k]);
                }
            }
            assert(expanded(g, f, (cx, cy)));
            assert forall|m: (int, int)| #[trigger] floods(g, (cx, cy), m) implies flag_at(f2, m) by {
                assert(flag_at(f, m));
            }
        }
    } else {
        if g_inside(g, nx as int, ny as int) && (need_op ==> operator_tile(g[ny as int][nx as int])) {
            assert(flag_at(f, n));
        }
    }
}

proof fn lemma_close(
    g: Seq<Seq<Tile>>,
    v0: Seq<Seq<bool>>,
    s: (int, int),
    f: Seq<Seq<bool>>,
    q: Seq<(i32, i32)>,
    b: (int, int, int, int),
    c: (int, int),
)
    requires
        flood_part(g, v0, s, f, q, b, c),
        expanded(g, f, c),
    ensures
        flood_inv(g, v0, s, f, q, b),
{
}

proof fn lemma_path(
    g: Seq<Seq<Tile>>,
    v0: Seq<Seq<bool>>,
    s: (int, int),
    f: Seq<Seq<bool>>,
    b: (int, int, int, int),
    p: Seq<(int, int)>,
)
    requires
        flood_inv(g, v0, s, f, Seq::empty(), b),
        g_inside(g, s.0, s.1),
        flood_path(g, v0, p),
        p[0] == s,
    ensures
        g_inside(g, p.last().0, p.last().1) && ours(v0, f, s, p.last()),
    decreases p.len(),
{
    if p.len() > 1 {
        let p1 = p.drop_last();
        assert forall|i: int| 0 <= i < p1.len() - 1 implies #[trigger] floods(g, p1[i], p1[i + 1]) by {
            assert(floods(g, p[i], p[i + 1]));
        }
        assert forall|i: int| 1 <= i < p1.len() implies !flag_at(v0, #[trigger] p1[i]) by {
            assert(!flag_at(v0, p[i]));
        }
        lemma_path(g, v0, s, f, b, p1);
        let a = p1.last();
        assert(!in_q(Seq::<(i32, i32)>::empty(), a));
        assert(ours(v0, f, s, (a.0, a.1)));
        let i = p.len() - 2;
        assert(floods(g, p[i], p[i + 1]));
        assert(p[i + 1] == p.last());
        assert(expanded(g, f, (a.0, a.1)));
        assert(flag_at(f, p.last()));
        assert(!flag_at(v0, p[p.len() - 1]));
    }
}

/// The board `g` has `h` rows of `w` cells, and the marks `f` match it.
pub open spec fn board_marks(g: Seq<Seq<Tile>>, f: Seq<Seq<bool>>) -> bool {
    &&& g.len() > 0
    &&& sized(g, g.len() as int, g[0].len() as int)
    &&& flags_shape(f, g.len() as int, g[0].len() as int)
}

/// Floods the group of the cell `(x, y)`: marks every cell the flood from
/// it reaches without entering a cell marked before, and gives the rectangle
/// `(min x, min y, max x, max y)` of the cells it reached.
pub fn bfs(board: &Vec<Vec<Cell>>, visited: &mut Vec<Vec<bool>>, x: usize, y: usize) -> (r: (i32, i32, i32, i32))
    requires
        board_marks(grid_of(board), flags(old(visited))),
        x < grid_of(board)[0].len(),
        y < board.len(),
    ensures
        board_marks(grid_of(board), flags(final(visited))),
        forall|cx: int, cy: int|
            g_inside(grid_of(board), cx, cy) ==> (#[trigger] flag_at(flags(final(visited)), (cx, cy)) == (flag_at(
                flags(old(visited)),
                (cx, cy),
            ) || flooded(grid_of(board), flags(old(visited)), (x as int, y as int), (cx, cy)))),
        forall|cx: int, cy: int|
            g_inside(grid_of(board), cx, cy) && #[trigger] flooded(
                grid_of(board),
                flags(old(visited)),
                (x as int, y as int),
                (cx, cy),
            ) ==> in_box((cx, cy), (r.0 as int, r.1 as int, r.2 as int, r.3 as int)),
        exists|c: (int, int)| #[trigger] flooded(grid_of(board), flags(old(visited)), (x as int, y as int), c) && c.0 == r.0,
        exists|c: (int, int)| #[trigger] flooded(grid_of(board), flags(old(visited)), (x as int, y as int), c) && c.1 == r.1,
        exists|c: (int, int)| #[trigger] flooded(grid_of(board), flags(old(visited)), (x as int, y as int), c) && c.0 == r.2,
        exists|c: (int, int)| #[trigger] flooded(grid_of(board), flags(old(visited)), (x as int, y as int), c) && c.1 == r.3,
{
    let ghost g = grid_of(board);
    let ghost v0 = flags(visited);
    let ghost s = (x as int, y as int);
    assert(g[0].len() == board@[0].len());
    let mut q: VecDeque<(i32, i32)> = VecDeque::new();
    assert(flags(visited)[y as int] == visited@[y as int]@);
    set_flag(visited, x, y);
    q.push_back((x as i32, y as i32));
    let mut min_x = x as i32;
    let mut min_y = y as i32;
    let mut max_x = x as i32;
    let mut max_y = y as i32;
    let ghost mut w0 = s;
    let ghost mut w1 = s;
    let ghost mut w2 = s;
    let ghost mut w3 = s;
    proof {
        lemma_flood_start(g, v0, s);
        let f = flags(visited);
        assert(flag_at(f, s));
        assert forall|cx: int, cy: int| g_inside(g, cx, cy) && flag_at(v0, (cx, cy)) implies #[trigger] flag_at(
            f,
            (cx, cy),
        ) by {}
        assert forall|cx: int, cy: int| g_inside(g, cx, cy) && #[trigger] ours(v0, f, s, (cx, cy)) implies flooded(
            g,
            v0,
            s,
            (cx, cy),
        ) by {
            assert((cx, cy) == s);
        }
        assert forall|cx: int, cy: int|
            g_inside(g, cx, cy) && #[trigger] ours(v0, f, s, (cx, cy)) && !in_q(q@, (cx, cy)) implies expanded(
                g,
                f,
                (cx, cy),
            ) && in_box((cx, cy), (min_x as int, min_y as int, max_x as int, max_y as int)) by {
            assert((cx, cy) == s);
            assert(q@[0] == (x as i32, y as i32));
        }
    }
    while q.len() > 0
        invariant
            g == grid_of(board),
            board_marks(g, v0),
            board_marks(g, flags(visited)),
            g_inside(g, s.0, s.1),
            flood_inv(g, v0, s, flags(visited), q@, (min_x as int, min_y as int, max_x as int, max_y as int)),
            g_inside(g, w0.0, w0.1) && ours(v0, flags(visited), s, w0) && w0.0 == min_x,
            g_inside(g, w1.0, w1.1) && ours(v0, flags(visited), s, w1) && w1.1 == min_y,
            g_inside(g, w2.0, w2.1) && ours(v0, flags(visited), s, w2) && w2.0 == max_x,
            g_inside(g, w3.0, w3.1) && ours(v0, flags(visited), s, w3) && w3.1 == max_y,
        decreases 2 * unmarked(flags(visited)) + q@.len(),
    {
        let ghost f0 = flags(visited);
        let ghost q0 = q@;
        let ghost b0 = (min_x as int, min_y as int, max_x as int, max_y as int);
        let (cx, cy) = q.pop_front().unwrap();
        let ghost c = (cx as int, cy as int);
        proof {
            assert(q0[0] == (cx, cy));
            lemma_pop(g, v0, s, f0, q0, b0);
            assert(q@ == q0.drop_first());
        }
        if cx < min_x {
            min_x = cx;
            proof {
                w0 = c;
            }
        }
        if cy < min_y {
            min_y = cy;
            proof {
                w1 = c;
            }
        }
        if cx > max_x {
            max_x = cx;
            proof {
                w2 = c;
            }
        }
        if cy > max_y {
            max_y = cy;
            proof {
                w3 = c;
            }
        }
        let ghost b = (min_x as int, min_y as int, max_x as int, max_y as int);
        assert(b == grow_box(b0, c));
        assert(board@[cy as int].len() == board@[0].len()) by {
            assert(g[cy as int].len() == g[0].len());
        }
        assert(g[cy as int][cx as int] == board@[cy as int]@[cx as int]@);
        let ghost t = g[cy as int][cx as int];
        match &board[cy as usize][cx as usize] {
            Cell::Plus | Cell::Minus | Cell::Mul | Cell::Div | Cell::Rem | Cell::Eq | Cell::Neq | Cell::Warp(_) => {
                assert(spreads(t));
                let ghost fa = flags(visited);
                let ghost qa = q@;
                visit(board, visited, &mut q, cx - 1, cy, false);
                proof {
                    lemma_visit(g, v0, s, fa, qa, b, c, flags(visited), q@, (cx - 1) as i32, cy, false);
                }
                let ghost fb = flags(visited);
                let ghost qb = q@;
                visit(board, visited, &mut q, cx, cy - 1, false);
                proof {
                    lemma_visit(g, v0, s, fb, qb, b, c, flags(visited), q@, cx, (cy - 1) as i32, false);
                }
                let ghost fc = flags(visited);
                let ghost qc = q@;
                visit(board, visited, &mut q, cx + 1, cy, false);
                proof {
                    lemma_visit(g, v0, s, fc, qc, b, c, flags(visited), q@, (cx + 1) as i32, cy, false);
                }
                let ghost fd = flags(visited);
                let ghost qd = q@;
                visit(board, visited, &mut q, cx, cy + 1, false);
                proof {
                    lemma_visit(g, v0, s, fd, qd, b, c, flags(visited), q@, cx, (cy + 1) as i32, false);
                    let fe = flags(visited);
                    assert forall|n: (int, int)| #[trigger] floods(g, c, n) implies flag_at(fe, n) by {
                        if n == (cx - 1, cy as int) {
                            assert(flag_at(fb, n));
                            assert(flag_at(fc, (n.0, n.1)));
                            assert(flag_at(fd, (n.0, n.1)));
                            assert(flag_at(fe, (n.0, n.1)));
                        } else if n == (cx as int, cy - 1) {
                            assert(flag_at(fc, n));
                            assert(flag_at(fd, (n.0, n.1)));
                            assert(flag_at(fe, (n.0, n.1)));
                        } else if n == (cx + 1, cy as int) {
                            assert(flag_at(fd, n));
                            assert(flag_at(fe, (n.0, n.1)));
                        }
                    }
                    lemma_close(g, v0, s, fe, q@, b, c);
                }
            },
            Cell::Up | Cell::Down => {
                assert(!spreads(t) && (t is Up || t is Down));
                let ghost fa = flags(visited);
                let ghost qa = q@;
                visit(board, visited, &mut q, cx, cy - 1, false);
                proof {
                    lemma_visit(g, v0, s, fa, qa, b, c, flags(visited), q@, cx, (cy - 1) as i32, false);
                }
                let ghost fb = flags(visited);
                let ghost qb = q@;
                visit(board, visited, &mut q, cx, cy + 1, false);
                proof {
                    lemma_visit(g, v0, s, fb, qb, b, c, flags(visited), q@, cx, (cy + 1) as i32, false);
                    let fe = flags(visited);
                    assert forall|n: (int, int)| #[trigger] floods(g, c, n) implies flag_at(fe, n) by {
                        if n == (cx as int, cy - 1) {
                            assert(flag_at(fb, n));
                            assert(flag_at(fe, (n.0, n.1)));
                        }
                    }
                    lemma_close(g, v0, s, fe, q@, b, c);
                }
            },
            Cell::Left | Cell::Right => {
                assert(!spreads(t) && !(t is Up || t is Down) && (t is Left || t is Right));
                let ghost fa = flags(visited);
                let ghost qa = q@;
                visit(board, visited, &mut q, cx - 1, cy, false);
                proof {
                    lemma_visit(g, v0, s, fa, qa, b, c, flags(visited), q@, (cx - 1) as i32, cy, false);
                }
                let ghost fb = flags(visited);
                let ghost qb = q@;
                visit(board, visited, &mut q, cx + 1, cy, false);
                proof {
                    lemma_visit(g, v0, s, fb, qb, b, c, flags(visited), q@, (cx + 1) as i32, cy, false);
                    let fe = flags(visited);
                    assert forall|n: (int, int)| #[trigger] floods(g, c, n) implies flag_at(fe, n) by {
                        if n == (cx - 1, cy as int) {
                            assert(flag_at(fb, n));
                            assert(flag_at(fe, (n.0, n.1)));
                        }
                    }
                    lemma_close(g, v0, s, fe, q@, b, c);
                }
            },
            _ => {
                assert(!spreads(t) && !(t is Up || t is Down) && !(t is Left || t is Right));
                let ghost fa = flags(visited);
                let ghost qa = q@;
                visit(board, visited, &mut q, cx + 1, cy, true);
                proof {
                    lemma_visit(g, v0, s, fa, qa, b, c, flags(visited), q@, (cx + 1) as i32, cy, true);
                }
                let ghost fb = flags(visited);
                let ghost qb = q@;
                visit(board, visited, &mut q, cx, cy + 1, true);
                proof {
                    lemma_visit(g, v0, s, fb, qb, b, c, flags(visited), q@, cx, (cy + 1) as i32, true);
                    let fe = flags(visited);
                    assert forall|n: (int, int)| #[trigger] floods(g, c, n) implies flag_at(fe, n) by {
                        if n == (cx + 1, cy as int) {
                            assert(flag_at(fb, n));
                            assert(flag_at(fe, (n.0, n.1)));
                        }
                    }
                    lemma_close(g, v0, s, fe, q@, b, c);
                }
            },
        }
    }
    proof {
        let f = flags(visited);
        let b = (min_x as int, min_y as int, max_x as int, max_y as int);
        assert(q@ =~= Seq::<(i32, i32)>::empty());
        assert forall|cx: int, cy: int| g_inside(g, cx, cy) implies (#[trigger] flag_at(f, (cx, cy)) == (flag_at(
            v0,
            (cx, cy),
        ) || flooded(g, v0, s, (cx, cy)))) by {
            if flooded(g, v0, s, (cx, cy)) {
                let p = choose|p: Seq<(int, int)>| #[trigger] flood_path(g, v0, p) && p[0] == s && p.last() == (cx, cy);
                lemma_path(g, v0, s, f, b, p);
                assert(ours(v0, f, s, (cx, cy)));
            }
            if flag_at(f, (cx, cy)) && !flag_at(v0, (cx, cy)) {
                assert(ours(v0, f, s, (cx, cy)));
            }
        }
        assert forall|cx: int, cy: int| g_inside(g, cx, cy) && #[trigger] flooded(g, v0, s, (cx, cy)) implies in_box(
            (cx, cy),
            b,
        ) by {
            let p = choose|p: Seq<(int, int)>| #[trigger] flood_path(g, v0, p) && p[0] == s && p.last() == (cx, cy);
            lemma_path(g, v0, s, f, b, p);
            assert(ours(v0, f, s, (cx, cy)));
            assert(!in_q(q@, (cx, cy)));
        }
        assert(flooded(g, v0, s, (w0.0, w0.1)));
        assert(flooded(g, v0, s, (w1.0, w1.1)));
        assert(flooded(g, v0, s, (w2.0, w2.1)));
        assert(flooded(g, v0, s, (w3.0, w3.1)));
    }
    (min_x, min_y, max_x, max_y)
}

/// Rows of `h` rows of `w` unset marks.
fn no_marks(h: usize, w: usize) -> (r: Vec<Vec<bool>>)
    ensures
        flags_shape(flags(&r), h as int, w as int),
        forall|cx: int, cy: int| 0 <= cx < w && 0 <= cy < h ==> !#[trigger] flag_at(flags(&r), (cx, cy)),
{
    let mut rows: Vec<Vec<bool>> = Vec::new();
    while rows.len() < h
        invariant
            rows.len() <= h,
            forall|i: int| 0 <= i < rows.len() ==> (#[trigger] rows@[i])@ == Seq::new(w as nat, |j: int| false),
        decreases h - rows.len(),
    {
        let mut row: Vec<bool> = Vec::new();
        while row.len() < w
            invariant
                row.len() <= w,
                row@ == Seq::new(row.len() as nat, |j: int| false),
            decreases w - row.len(),
        {
            row.push(false);
            assert(row@ =~= Seq::new(row.len() as nat, |j: int| false));
        }
        rows.push(row);
    }
    assert forall|i: int| 0 <= i < h implies (#[trigger] flags(&rows)[i]).len() == w by {
        assert(flags(&rows)[i] == rows@[i]@);
    }
    assert forall|cx: int, cy: int| 0 <= cx < w && 0 <= cy < h implies !#[trigger] flag_at(flags(&rows), (cx, cy)) by {
        assert(flags(&rows)[cy] == rows@[cy]@);
    }
    rows
}

/// Floods every group of the board in turn, row by row; what it gives back
/// is one empty rectangle, whatever the groups.
pub fn find_boxes(state: &State) -> (r: Vec<(i32, i32, i32, i32)>)
    requires
        state@.board.len() > 0,
        sized(state@.board, state@.board.len() as int, state@.board[0].len() as int),
    ensures
        r@ == seq![(0i32, 0i32, 0i32, 0i32)],
{
    let board = state.rows();
    let ghost g = grid_of(board);
    let h = board.len();
    let w = board[0].len();
    assert(g[0].len() == w);
    let mut res: Vec<(i32, i32, i32, i32)> = Vec::new();
    let mut visited = no_marks(h, w);
    let mut y: usize = 0;
    while y < h
        invariant
            g == grid_of(board),
            h == board.len(),
            w == g[0].len(),
            board_marks(g, flags(&visited)),
        decreases h - y,
    {
        let mut x: usize = 0;
        while x < w
            invariant
                g == grid_of(board),
                h == board.len(),
                w == g[0].len(),
                y < h,
                board_marks(g, flags(&visited)),
            decreases w - x,
        {
            assert(flags(&visited)[y as int] == visited@[y as int]@);
            if !visited[y][x] {
                let b = bfs(board, &mut visited, x, y);
                res.push(b);
            }
            x = x + 1;
        }
        y = y + 1;
    }
    vec![(0, 0, 0, 0)]
}

} // verus!
