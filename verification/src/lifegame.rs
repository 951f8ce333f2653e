use vstd::prelude::*;

verus! {

/// Conway's game of life on an `h` by `w` board whose border is dead.
pub struct LifeGame {
    h: isize,
    w: isize,
    world: Vec<Vec<bool>>,
}

/// The cell `(i, j)` of `cells` (`h` rows of `w` cells) is alive; cells off
/// the board are dead.
pub open spec fn alive(cells: Seq<Seq<bool>>, h: int, w: int, i: int, j: int) -> bool {
    0 <= i < h && 0 <= j < w && cells[i][j]
}

/// `1` for a live cell, `0` for a dead one.
pub open spec fn count(b: bool) -> int {
    if b {
        1
    } else {
        0
    }
}

/// The number of live neighbours of the cell `(i, j)`.
pub open spec fn neighbours(cells: Seq<Seq<bool>>, h: int, w: int, i: int, j: int) -> int {
    count(alive(cells, h, w, i - 1, j - 1)) + count(alive(cells, h, w, i - 1, j)) + count(
        alive(cells, h, w, i - 1, j + 1),
    ) + count(alive(cells, h, w, i, j - 1)) + count(alive(cells, h, w, i, j + 1)) + count(
        alive(cells, h, w, i + 1, j - 1),
    ) + count(alive(cells, h, w, i + 1, j)) + count(alive(cells, h, w, i + 1, j + 1))
}

/// The cell `(i, j)` in the next generation: a live cell survives with two or
/// three live neighbours, a dead cell comes alive with exactly three.
pub open spec fn next_cell(cells: Seq<Seq<bool>>, h: int, w: int, i: int, j: int) -> bool {
    let c = neighbours(cells, h, w, i, j);
    if alive(cells, h, w, i, j) {
        c == 2 || c == 3
    } else {
        c == 3
    }
}

/// The next generation of the board.
pub open spec fn next_generation(cells: Seq<Seq<bool>>, h: int, w: int) -> Seq<Seq<bool>> {
    Seq::new(h as nat, |i: int| Seq::new(w as nat, |j: int| next_cell(cells, h, w, i, j)))
}

/// A board of `h` rows of `w` cells.
pub open spec fn is_board(cells: Seq<Seq<bool>>, h: int, w: int) -> bool {
    &&& 0 <= h
    &&& 0 <= w
    &&& cells.len() == h
    &&& forall|i: int| 0 <= i < h ==> (#[trigger] cells[i]).len() == w
}

impl LifeGame {
    /// The cells, row by row.
    pub closed spec fn cells(&self) -> Seq<Seq<bool>> {
        self.world@.map_values(|row: Vec<bool>| row@)
    }

    /// The number of rows.
    pub closed spec fn height(&self) -> int {
        self.h as int
    }

    /// The number of columns.
    pub closed spec fn width(&self) -> int {
        self.w as int
    }

    /// The board is `height` rows of `width` cells.
    pub open spec fn wf(&self) -> bool {
        is_board(self.cells(), self.height(), self.width())
    }

    /// A board of `h` rows of `w` dead cells.
    pub fn new(h: isize, w: isize) -> (r: Self)
        requires
            0 <= h,
            0 <= w,
        ensures
            r.wf(),
            r.height() == h,
            r.width() == w,
            forall|i: int, j: int| 0 <= i < h && 0 <= j < w ==> !r.cells()[i][j],
    {
        let mut world: Vec<Vec<bool>> = Vec::new();
        let mut i: isize = 0;
        while i < h
            invariant
                0 <= i <= h,
                0 <= w,
                world.len() == i,
                forall|k: int| 0 <= k < i ==> (#[trigger] world@[k])@.len() == w,
                forall|k: int, j: int| 0 <= k < i && 0 <= j < w ==> !(#[trigger] world@[k]@[j]),
            decreases h - i,
        {
            let mut row: Vec<bool> = Vec::new();
            let mut j: isize = 0;
            while j < w
                invariant
                    0 <= j <= w,
                    row.len() == j,
                    forall|k: int| 0 <= k < j ==> !row@[k],
                decreases w - j,
            {
                row.push(false);
                j = j + 1;
            }
            world.push(row);
            i = i + 1;
        }
        LifeGame { h, w, world }
    }

    /// The number of rows and of columns.
    pub fn size(&self) -> (r: (isize, isize))
        ensures
            r.0 == self.height(),
            r.1 == self.width(),
    {
        (self.h, self.w)
    }

    /// Whether the cell `(i, j)` is alive (`false` off the board).
    pub fn get(&self, i: isize, j: isize) -> (r: bool)
        requires
            self.wf(),
        ensures
            r == alive(self.cells(), self.height(), self.width(), i as int, j as int),
    {
        if i < 0 || i >= self.h || j < 0 || j >= self.w {
            false
        } else {
            assert(self.cells()[i as int] == self.world@[i as int]@);
            self.world[i as usize][j as usize]
        }
    }

    /// Sets the cell `(i, j)`, which must be on the board.
    pub fn set(&mut self, i: isize, j: isize, b: bool)
        requires
            old(self).wf(),
            0 <= i < old(self).height(),
            0 <= j < old(self).width(),
        ensures
            final(self).wf(),
            final(self).height() == old(self).height(),
            final(self).width() == old(self).width(),
            final(self).cells() == old(self).cells().update(
                i as int,
                old(self).cells()[i as int].update(j as int, b),
            ),
    {
        let ghost old_cells = self.cells();
        assert(old_cells[i as int] == self.world@[i as int]@);
        let mut row = self.world[i as usize].clone();
        assert(row@ =~= old_cells[i as int]);
        row.set(j as usize, b);
        self.world.set(i as usize, row);
        assert(self.cells() =~= old_cells.update(i as int, old_cells[i as int].update(j as int, b)));
    }

    fn neighbour_count(&self, i: isize, j: isize) -> (c: u32)
        requires
            self.wf(),
            0 <= i < self.height(),
            0 <= j < self.width(),
        ensures
            c == neighbours(self.cells(), self.height(), self.width(), i as int, j as int),
    {
        let mut c: u32 = 0;
        if self.get(i - 1, j - 1) {
            c = c + 1;
        }
        if self.get(i - 1, j) {
            c = c + 1;
        }
        if self.get(i - 1, j + 1) {
            c = c + 1;
        }
        if self.get(i, j - 1) {
            c = c + 1;
        }
        if self.get(i, j + 1) {
            c = c + 1;
        }
        if self.get(i + 1, j - 1) {
            c = c + 1;
        }
        if self.get(i + 1, j) {
            c = c + 1;
        }
        if self.get(i + 1, j + 1) {
            c = c + 1;
        }
        c
    }

    /// Advances the board by one generation.
    pub fn tick(&mut self)
        requires
            old(self).wf(),
        ensures
            final(self).wf(),
            final(self).height() == old(self).height(),
            final(self).width() == old(self).width(),
            final(self).cells() == next_generation(
                old(self).cells(),
                old(self).height(),
                old(self).width(),
            ),
    {
        let ghost cells = self.cells();
        let ghost gh = self.h as int;
        let ghost gw = self.w as int;
        let mut new_world: Vec<Vec<bool>> = Vec::new();
        let mut i: isize = 0;
        while i < self.h
            invariant
                self.wf(),
                self.cells() == cells,
                gh == self.h,
                gw == self.w,
                0 <= i <= gh,
                new_world.len() == i,
                forall|k: int|
                    0 <= k < i ==> (#[trigger] new_world@[k])@ =~= Seq::new(
                        gw as nat,
                        |j: int| next_cell(cells, gh, gw, k, j),
                    ),
            decreases gh - i,
        {
            let mut row: Vec<bool> = Vec::new();
            let mut j: isize = 0;
            while j < self.w
                invariant
                    self.wf(),
                    self.cells() == cells,
                    gh == self.h,
                    gw == self.w,
                    0 <= i < gh,
                    0 <= j <= gw,
                    row@ =~= Seq::new(j as nat, |m: int| next_cell(cells, gh, gw, i as int, m)),
                decreases gw - j,
            {
                let c = self.neighbour_count(i, j);
                let live = if self.get(i, j) {
                    c == 2 || c == 3
                } else {
                    c == 3
                };
                row.push(live);
                j = j + 1;
            }
            new_world.push(row);
            i = i + 1;
        }
        self.world = new_world;
        assert(self.cells() =~= next_generation(cells, gh, gw));
    }

    /// The cells, row by row.
    pub fn world(&self) -> (r: &Vec<Vec<bool>>)
        ensures
            r@.map_values(|row: Vec<bool>| row@) == self.cells(),
    {
        &self.world
    }
}

/// A call on a board: `set(i, j, b)` (as `Put`) or `tick()`.
pub enum LifeOp {
    Put(isize, isize, bool),
    Tick,
}

/// The cells after one call, as `set` and `tick` state it (a `set` off the
/// board is left out: `set` does not accept it).
pub open spec fn apply_op(cells: Seq<Seq<bool>>, h: int, w: int, op: LifeOp) -> Seq<Seq<bool>> {
    match op {
        LifeOp::Put(i, j, b) => if 0 <= i < h && 0 <= j < w {
            cells.update(i as int, cells[i as int].update(j as int, b))
        } else {
            cells
        },
        LifeOp::Tick => next_generation(cells, h, w),
    }
}

/// The cells after a sequence of calls.
pub open spec fn apply_ops(cells: Seq<Seq<bool>>, h: int, w: int, ops: Seq<LifeOp>) -> Seq<Seq<bool>>
    decreases ops.len(),
{
    if ops.len() == 0 {
        cells
    } else {
        apply_ops(apply_op(cells, h, w, ops[0]), h, w, ops.drop_first())
    }
}

/// Any sequence of `set` and `tick` calls keeps a board of `h` rows of `w`
/// cells (with `size()` and `world()` giving that shape, by their contracts).
pub proof fn law_shape_kept(cells: Seq<Seq<bool>>, h: int, w: int, ops: Seq<LifeOp>)
    requires
        is_board(cells, h, w),
    ensures
        is_board(apply_ops(cells, h, w, ops), h, w),
    decreases ops.len(),
{
    if ops.len() > 0 {
        let next = apply_op(cells, h, w, ops[0]);
        match ops[0] {
            LifeOp::Put(i, j, b) => {
                if 0 <= i < h && 0 <= j < w {
                    assert forall|k: int| 0 <= k < h implies (#[trigger] next[k]).len() == w by {
                        if k != i {
                            assert(next[k] == cells[k]);
                        }
                    }
                }
            },
            LifeOp::Tick => {},
        }
        law_shape_kept(next, h, w, ops.drop_first());
    }
}

/// The board `b` is one that the call `op` on `a` may leave, by the
/// contracts of `set` (given a cell on the board) and `tick`.
pub open spec fn call_result(a: LifeGame, op: LifeOp, b: LifeGame) -> bool {
    &&& b.wf()
    &&& b.height() == a.height()
    &&& b.width() == a.width()
    &&& match op {
        LifeOp::Put(i, j, v) => 0 <= i < a.height() && 0 <= j < a.width() && b.cells() == a.cells().update(
            i as int,
            a.cells()[i as int].update(j as int, v),
        ),
        LifeOp::Tick => b.cells() == next_generation(a.cells(), a.height(), a.width()),
    }
}

/// Over any sequence of `set` and `tick` calls, each board as its call's
/// contract leaves it, the last board keeps the first one's height and
/// width (so `size()` gives them), is still `height` rows of `width` cells
/// (so `world()` has that shape), and holds the cells of the calls applied
/// in turn.
pub proof fn law_calls_keep_size(gs: Seq<LifeGame>, ops: Seq<LifeOp>)
    requires
        gs.len() == ops.len() + 1,
        gs[0].wf(),
        forall|k: int| 0 <= k < ops.len() ==> call_result(#[trigger] gs[k], ops[k], gs[k + 1]),
    ensures
        gs.last().wf(),
        gs.last().height() == gs[0].height(),
        gs.last().width() == gs[0].width(),
        gs.last().cells() == apply_ops(gs[0].cells(), gs[0].height(), gs[0].width(), ops),
    decreases ops.len(),
{
    if ops.len() > 0 {
        let rest = gs.drop_first();
        assert forall|k: int| 0 <= k < ops.drop_first().len() implies call_result(
            #[trigger] rest[k],
            ops.drop_first()[k],
            rest[k + 1],
        ) by {
            assert(call_result(gs[k + 1], ops[k + 1], gs[k + 2]));
        }
        assert(call_result(gs[0], ops[0], gs[1]));
        law_calls_keep_size(rest, ops.drop_first());
        assert(rest.last() == gs.last());
        assert(gs[1].cells() == apply_op(gs[0].cells(), gs[0].height(), gs[0].width(), ops[0]));
    }
}

/// In the next generation a live cell dies of loneliness with fewer than
/// two live neighbours and of overcrowding with four or more, survives with
/// two or three, and a dead cell comes alive exactly with three.
pub proof fn law_life_rules(cells: Seq<Seq<bool>>, h: int, w: int, i: int, j: int)
    requires
        is_board(cells, h, w),
        0 <= i < h,
        0 <= j < w,
    ensures
        cells[i][j] && neighbours(cells, h, w, i, j) >= 4 ==> !next_generation(cells, h, w)[i][j],
        cells[i][j] && neighbours(cells, h, w, i, j) < 2 ==> !next_generation(cells, h, w)[i][j],
        cells[i][j] && 2 <= neighbours(cells, h, w, i, j) <= 3 ==> next_generation(cells, h, w)[i][j],
        !cells[i][j] ==> (next_generation(cells, h, w)[i][j] <==> neighbours(cells, h, w, i, j) == 3),
        0 <= neighbours(cells, h, w, i, j) <= 8,
{
}

/// The neighbours of a cell are the eight cells around it: bringing one of
/// them to life adds one to its count of live neighbours, and changing any
/// other cell, the cell itself included, leaves the count as it was.
pub proof fn law_neighbours_around(cells: Seq<Seq<bool>>, h: int, w: int, i: int, j: int, k: int, l: int, b: bool)
    requires
        is_board(cells, h, w),
        0 <= k < h,
        0 <= l < w,
    ensures
        ({
            let after = cells.update(k, cells[k].update(l, b));
            let near = -1 <= k - i <= 1 && -1 <= l - j <= 1 && !(k == i && l == j);
            &&& near && !cells[k][l] && b ==> neighbours(after, h, w, i, j) == neighbours(cells, h, w, i, j) + 1
            &&& !near ==> neighbours(after, h, w, i, j) == neighbours(cells, h, w, i, j)
        }),
{
    let after = cells.update(k, cells[k].update(l, b));
    assert forall|p: int, q: int| !(p == k && q == l) implies alive(after, h, w, p, q) == alive(cells, h, w, p, q) by {
        if 0 <= p < h && 0 <= q < w {
            if p == k {
                assert(after[p][q] == cells[p][q]);
            } else {
                assert(after[p] == cells[p]);
            }
        }
    }
    assert(alive(after, h, w, k, l) == b);
}

} // verus!
