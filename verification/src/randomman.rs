use vstd::prelude::*;

use crate::bignum::BigNum;
use crate::expr::{BinOp, Expr, Term};
use crate::printer::{digits_text, usize_text};
use crate::text::append_str;

use crate::lambdaman::{
    cell_of, cells_from, cells_of, grid_count, grid_total, holds, lemma_grid_count_update,
    lemma_grid_count_nonneg, lemma_grid_total_nonneg, lemma_grid_total_take, row_count, segments,
    some_lambdaman, two_lambdamen, LCell,
};

verus! {

/// A direction Lambda-Man can move in.
#[derive(Debug, Clone, Copy, PartialEq, Eq, Structural)]
pub enum Direction {
    Left,
    Up,
    Down,
    Right,
}

/// The direction that a move character stands for (`L`, `U`, `D`, `R`).
pub open spec fn direction_of(c: char) -> Option<Direction> {
    if c == 'L' {
        Some(Direction::Left)
    } else if c == 'U' {
        Some(Direction::Up)
    } else if c == 'D' {
        Some(Direction::Down)
    } else if c == 'R' {
        Some(Direction::Right)
    } else {
        None
    }
}

/// The change of `(row, column)` of a move in a direction.
pub open spec fn delta_of(d: Direction) -> (int, int) {
    match d {
        Direction::Left => (0, -1),
        Direction::Up => (-1, 0),
        Direction::Down => (1, 0),
        Direction::Right => (0, 1),
    }
}

impl Direction {
    /// The direction of a move character, which must be one of `L`, `U`, `D`,
    /// `R`.
    pub fn from_char(c: char) -> (d: Direction)
        requires
            direction_of(c) is Some,
        ensures
            direction_of(c) == Some(d),
    {
        if c == 'L' {
            Direction::Left
        } else if c == 'U' {
            Direction::Up
        } else if c == 'D' {
            Direction::Down
        } else {
            Direction::Right
        }
    }

    /// The change of `(row, column)` of a move in this direction.
    pub fn delta(self) -> (r: (isize, isize))
        ensures
            r.0 == delta_of(self).0,
            r.1 == delta_of(self).1,
    {
        match self {
            Direction::Left => (0, -1),
            Direction::Up => (-1, 0),
            Direction::Down => (1, 0),
            Direction::Right => (0, 1),
        }
    }
}

/// A pseudo-random generator of moves: a direction from the two top bits of
/// the state, and the next state.
#[derive(Debug, Clone, PartialEq, Eq, Structural)]
pub enum Rng {
    /// The Lehmer generator modulo `2^64 - 59` with multiplier `48271`.
    Default,
    /// A linear congruential generator modulo `2^64`.
    Better,
}

/// The direction drawn from a state: its two top bits, `0` left, `1` up,
/// `2` down, `3` right.
pub open spec fn drawn_direction(state: u64) -> Direction {
    let top = state / 0x4000_0000_0000_0000;
    if top == 0 {
        Direction::Left
    } else if top == 1 {
        Direction::Up
    } else if top == 2 {
        Direction::Down
    } else {
        Direction::Right
    }
}

/// The state after `state`.
pub open spec fn next_state(rng: Rng, state: u64) -> int {
    match rng {
        Rng::Default => (state * 48271) % 18446744073709551557int,
        Rng::Better => (state * 0xd1342543de82ef95int + 1) % 0x1_0000_0000_0000_0000int,
    }
}

impl Rng {
    /// The generator named `name` (`default` or `better`).
    pub fn from_name(name: &str) -> (r: Option<Rng>)
        ensures
            name@ == "default"@ ==> r == Some(Rng::Default),
            name@ == "better"@ ==> r == Some(Rng::Better),
            name@ != "default"@ && name@ != "better"@ ==> r is None,
    {
        let default_name = "default";
        let better_name = "better";
        proof {
            reveal_strlit("default");
            reveal_strlit("better");
            assert("default"@.len() != "better"@.len());
        }
        if crate::text::str_eq(name, default_name) {
            Some(Rng::Default)
        } else if crate::text::str_eq(name, better_name) {
            Some(Rng::Better)
        } else {
            None
        }
    }

    /// The direction drawn from `state`, and the next state.
    pub fn next(&self, state: u64) -> (r: (Direction, u64))
        ensures
            r.0 == drawn_direction(state),
            r.1 == next_state(*self, state),
    {
        let top = state >> 62;
        assert(top == state / 0x4000_0000_0000_0000) by (bit_vector)
            requires
                top == state >> 62,
        ;
        let dir = if top == 0 {
            Direction::Left
        } else if top == 1 {
            Direction::Up
        } else if top == 2 {
            Direction::Down
        } else {
            Direction::Right
        };
        let next = match self {
            Rng::Default => {
                let wide = (state as u128).wrapping_mul(48271);
                proof {
                    let big = u128::MAX as nat + 1;
                    assert((state as nat) * 48271 < big);
                    vstd::arithmetic::div_mod::lemma_small_mod((state as nat * 48271) as nat, big);
                }
                (wide % 18446744073709551557) as u64
            },
            Rng::Better => {
                let m = state.wrapping_mul(0xd1342543de82ef95);
                let r = m.wrapping_add(1);
                proof {
                    lemma_mul_add_mod(state as int);
                }
                r
            },
        };
        (dir, next)
    }
}

proof fn lemma_mul_add_mod(s: int)
    requires
        0 <= s,
    ensures
        (((s * 0xd1342543de82ef95int) % 0x1_0000_0000_0000_0000int) + 1)
            % 0x1_0000_0000_0000_0000int == (s * 0xd1342543de82ef95int + 1)
            % 0x1_0000_0000_0000_0000int,
{
    vstd::arithmetic::div_mod::lemma_add_mod_noop(
        s * 0xd1342543de82ef95int,
        1,
        0x1_0000_0000_0000_0000int,
    );
    vstd::arithmetic::div_mod::lemma_small_mod(1, 0x1_0000_0000_0000_0000nat);
}

/// The cells of a game are those of a Lambda-Man map.
pub type Cell = LCell;

/// Why a game was refused.
#[derive(Debug, Clone, Copy, PartialEq, Eq, Structural)]
pub enum GameError {
    /// A line whose length differs from the first line's.
    InconsistentLineLength,
    /// Not exactly one Lambda-Man on the map.
    LambdamanCount,
}

/// The pieces between line feeds that are not empty.
pub open spec fn nonempty_lines(ls: Seq<Seq<char>>) -> Seq<Seq<char>>
    decreases ls.len(),
{
    if ls.len() == 0 {
        Seq::empty()
    } else {
        let prev = nonempty_lines(ls.drop_last());
        if ls.last().len() == 0 {
            prev
        } else {
            prev.push(ls.last())
        }
    }
}

/// The cells of a line of cell characters.
pub open spec fn row_cells(l: Seq<char>) -> Seq<LCell> {
    match cells_of(l) {
        Ok(c) => c,
        Err(_) => Seq::empty(),
    }
}

/// The rows of cells of a game text: one per line that is not empty.
pub open spec fn game_rows(s: Seq<char>) -> Seq<Seq<LCell>> {
    nonempty_lines(segments(s)).map_values(|l: Seq<char>| row_cells(l))
}

/// Every character of `s` is a line feed or a cell character, and some line
/// is not empty.
pub open spec fn game_text(s: Seq<char>) -> bool {
    &&& forall|i: int| 0 <= i < s.len() ==> s[i] == '\n' || cell_of(#[trigger] s[i]) is Some
    &&& nonempty_lines(segments(s)).len() > 0
}

/// All rows have the length of the first.
pub open spec fn rectangular(rows: Seq<Seq<LCell>>) -> bool {
    forall|i: int| 0 <= i < rows.len() ==> (#[trigger] rows[i]).len() == rows[0].len()
}

/// The game read from `s`: its rows, or why it is refused.
pub open spec fn parsed_game(s: Seq<char>) -> Result<Seq<Seq<LCell>>, GameError> {
    let rows = game_rows(s);
    if !rectangular(rows) {
        Err(GameError::InconsistentLineLength)
    } else if two_lambdamen(rows) || !some_lambdaman(rows) {
        Err(GameError::LambdamanCount)
    } else {
        Ok(rows)
    }
}

/// A game of Lambda-Man driven by directions: the field (where Lambda-Man's
/// cell is empty), its size, the pills left and Lambda-Man's position.
#[derive(Debug)]
pub struct Game {
    pub field: Vec<Vec<Cell>>,
    pub height: usize,
    pub width: usize,
    pub pills: usize,
    pub pos: (usize, usize),
}

/// The field of a game as rows of cells.
pub open spec fn field_of(field: &Vec<Vec<Cell>>) -> Seq<Seq<LCell>> {
    field@.map_values(|r: Vec<Cell>| r@)
}

/// One step of a game in direction `d` on `(field, pills, pos)`: off the map
/// or into a wall nothing changes; otherwise Lambda-Man moves, eating a pill if
/// there is one.
pub open spec fn game_step(
    g: (Seq<Seq<LCell>>, int, (int, int)),
    h: int,
    w: int,
    d: Direction,
) -> (Seq<Seq<LCell>>, int, (int, int)) {
    let (ni, nj) = (g.2.0 + delta_of(d).0, g.2.1 + delta_of(d).1);
    if ni < 0 || ni >= h || nj < 0 || nj >= w {
        g
    } else if g.0[ni][nj] == LCell::Wall {
        g
    } else if g.0[ni][nj] == LCell::Pill {
        (g.0.update(ni, g.0[ni].update(nj, LCell::Empty)), g.1 - 1, (ni, nj))
    } else {
        (g.0, g.1, (ni, nj))
    }
}

impl Game {
    /// The game as a state: field, pills left, position.
    pub open spec fn state(&self) -> (Seq<Seq<LCell>>, int, (int, int)) {
        (field_of(&self.field), self.pills as int, (self.pos.0 as int, self.pos.1 as int))
    }

    /// The field is `height` rows of `width` cells, holds no Lambda-Man, and
    /// the pill count is that of the field; Lambda-Man stands on it.
    pub open spec fn wf(&self) -> bool {
        let f = field_of(&self.field);
        &&& f.len() == self.height
        &&& f.len() > 0
        &&& forall|i: int| 0 <= i < f.len() ==> (#[trigger] f[i]).len() == self.width
        &&& self.pos.0 < self.height
        &&& self.pos.1 < self.width
        &&& forall|a: int, b: int| !#[trigger] holds(f, a, b, LCell::Lambdaman)
        &&& self.pills == grid_count(f, LCell::Pill)
    }

    /// The number of pills left.
    pub fn pills(&self) -> (r: usize)
        ensures
            r == self.pills,
    {
        self.pills
    }

    /// Moves Lambda-Man one step in direction `dir` (see `game_step`).
    pub fn step(&mut self, dir: Direction)
        requires
            old(self).wf(),
        ensures
            final(self).wf(),
            final(self).height == old(self).height,
            final(self).width == old(self).width,
            final(self).state() == game_step(
                old(self).state(),
                old(self).height as int,
                old(self).width as int,
                dir,
            ),
    {
        let (ci, cj) = self.pos;
        let (ni, nj): (usize, usize) = match dir {
            Direction::Left => {
                if cj == 0 {
                    return ;
                }
                (ci, cj - 1)
            },
            Direction::Up => {
                if ci == 0 {
                    return ;
                }
                (ci - 1, cj)
            },
            Direction::Down => {
                if ci + 1 >= self.height {
                    return ;
                }
                (ci + 1, cj)
            },
            Direction::Right => {
                if cj + 1 >= self.width {
                    return ;
                }
                (ci, cj + 1)
            },
        };
        let ghost f = field_of(&self.field);
        assert(f[ni as int] == self.field@[ni as int]@);
        let cell = self.field[ni][nj];
        if cell == LCell::Wall {
            return ;
        }
        if cell == LCell::Pill {
            let mut row = self.field[ni].clone();
            assert(row@ =~= f[ni as int]);
            row.set(nj, LCell::Empty);
            self.field.set(ni, row);
            proof {
                lemma_grid_count_update(f, ni as int, nj as int, LCell::Empty);
                let f2 = f.update(ni as int, f[ni as int].update(nj as int, LCell::Empty));
                lemma_grid_count_nonneg(f2, LCell::Pill);
                assert(field_of(&self.field) =~= f2);
                assert forall|i: int| 0 <= i < f2.len() implies (#[trigger] f2[i]).len()
                    == self.width by {
                    assert(f[i].len() == self.width);
                }
                assert forall|a: int, b: int| !#[trigger] holds(f2, a, b, LCell::Lambdaman) by {
                    if !(a == ni && b == nj) {
                        assert(!holds(f, a, b, LCell::Lambdaman));
                    }
                }
            }
            self.pills = self.pills - 1;
        } else if cell == LCell::Lambdaman {
            proof {
                assert(holds(f, ni as int, nj as int, LCell::Lambdaman));
            }
        }
        self.pos = (ni, nj);
    }

    /// Reads a game: one row of cells per line of `s` that is not empty (see
    /// `parsed_game`); Lambda-Man's cell becomes empty.
    #[verifier::rlimit(100)]
    pub fn from_str(s: &str) -> (r: Result<Game, GameError>)
        requires
            game_text(s@),
        ensures
            match parsed_game(s@) {
                Err(e) => r == Err::<Game, GameError>(e),
                Ok(rows) => r matches Ok(g) && g.wf() && holds(
                    rows,
                    g.pos.0 as int,
                    g.pos.1 as int,
                    LCell::Lambdaman,
                ) && field_of(&g.field) == rows.update(
                    g.pos.0 as int,
                    rows[g.pos.0 as int].update(g.pos.1 as int, LCell::Empty),
                ) && g.pills == grid_count(rows, LCell::Pill),
            },
    {
        let chars = crate::text::chars_of(s);
        let n = chars.len();
        let mut rows: Vec<Vec<LCell>> = Vec::new();
        let mut cur: Vec<char> = Vec::new();
        let ghost mut done: Seq<Seq<char>> = Seq::empty();
        proof {
            assert(field_of(&rows) =~= Seq::<Seq<LCell>>::empty());
            assert(s@.take(0) =~= Seq::<char>::empty());
            assert(done.push(cur@) =~= seq![Seq::<char>::empty()]);
            assert(nonempty_lines(done).map_values(|l: Seq<char>| row_cells(l)) =~= Seq::<
                Seq<LCell>,
            >::empty());
        }
        let mut i: usize = 0;
        while i < n
            invariant
                n == chars.len(),
                chars@ == s@,
                game_text(s@),
                i <= n,
                segments(s@.take(i as int)) == done.push(cur@),
                forall|k: int| 0 <= k < cur.len() ==> cell_of(#[trigger] cur@[k]) is Some,
                field_of(&rows) == nonempty_lines(done).map_values(|l: Seq<char>| row_cells(l)),
                grid_total(field_of(&rows)) + cur.len() <= i,
            decreases n - i,
        {
            let c = chars[i];
            proof {
                assert(s@.take(i + 1).drop_last() =~= s@.take(i as int));
                assert(s@.take(i + 1).last() == c);
            }
            if c == '\n' {
                proof {
                    lemma_grid_total_nonneg(field_of(&rows));
                }
                push_row(&mut rows, &cur, Ghost(done));
                proof {
                    done = done.push(cur@);
                }
                cur = Vec::new();
                assert(segments(s@.take(i + 1)) =~= done.push(cur@));
            } else {
                assert(cell_of(s@[i as int]) is Some);
                let ghost old_cur = cur@;
                cur.push(c);
                proof {
                    let prev = done.push(old_cur);
                    assert(segments(s@.take(i + 1)) =~= prev.update(
                        prev.len() - 1,
                        prev.last().push(c),
                    ));
                    assert(done.push(cur@) =~= prev.update(prev.len() - 1, prev.last().push(c)));
                }
            }
            i = i + 1;
        }
        proof {
            assert(s@.take(n as int) =~= s@);
            lemma_grid_total_nonneg(field_of(&rows));
        }
        push_row(&mut rows, &cur, Ghost(done));
        let ghost grid = field_of(&rows);
        assert(grid == game_rows(s@));
        assert(grid.len() > 0);
        assert(grid[0] == rows@[0]@);
        let height = rows.len();
        let width = rows[0].len();
        let mut k: usize = 0;
        while k < height
            invariant
                grid == field_of(&rows),
                grid == game_rows(s@),
                height == grid.len(),
                width == grid[0].len(),
                k <= height,
                forall|j: int| 0 <= j < k ==> (#[trigger] grid[j]).len() == width,
            decreases height - k,
        {
            assert(grid[k as int] == rows@[k as int]@);
            if rows[k].len() != width {
                proof {
                    assert(!((grid[k as int]).len() == grid[0].len()));
                    assert(!rectangular(grid));
                }
                return Err(GameError::InconsistentLineLength);
            }
            k = k + 1;
        }
        assert(rectangular(grid));
        let mut pills: usize = 0;
        let mut found: Option<(usize, usize)> = None;
        let mut x: usize = 0;
        while x < rows.len()
            invariant
                grid == field_of(&rows),
                grid == game_rows(s@),
                rectangular(grid),
                grid_total(grid) <= n,
                x <= grid.len(),
                pills == grid_count(grid.take(x as int), LCell::Pill),
                pills <= grid_total(grid.take(x as int)),
                crate::lambdaman::scan_state(grid, x as int, 0, found),
            decreases rows.len() - x,
        {
            assert(grid[x as int] == rows@[x as int]@);
            let ghost row = grid[x as int];
            let mut y: usize = 0;
            proof {
                lemma_grid_total_take(grid, x as int);
                assert(row.take(0) =~= Seq::<LCell>::empty());
            }
            while y < rows[x].len()
                invariant
                    grid == field_of(&rows),
                    grid == game_rows(s@),
                    rectangular(grid),
                    x < grid.len(),
                    row == grid[x as int],
                    row == rows@[x as int]@,
                    y <= row.len(),
                    grid_total(grid.take(x as int)) + row.len() <= n,
                    pills == grid_count(grid.take(x as int), LCell::Pill) + row_count(
                        row.take(y as int),
                        LCell::Pill,
                    ),
                    pills <= grid_total(grid.take(x as int)) + y,
                    crate::lambdaman::scan_state(grid, x as int, y as int, found),
                decreases row.len() - y,
            {
                let cell = rows[x][y];
                proof {
                    assert(row.take(y + 1).drop_last() =~= row.take(y as int));
                }
                if cell == LCell::Pill {
                    pills = pills + 1;
                }
                if cell == LCell::Lambdaman {
                    match found {
                        Some(p) => {
                            proof {
                                assert(holds(grid, p.0 as int, p.1 as int, LCell::Lambdaman));
                                assert(holds(grid, x as int, y as int, LCell::Lambdaman));
                                assert(two_lambdamen(grid));
                            }
                            return Err(GameError::LambdamanCount);
                        },
                        None => {
                            found = Some((x, y));
                        },
                    }
                }
                y = y + 1;
                assert forall|a: int, b: int|
                    #[trigger] holds(grid, a, b, LCell::Lambdaman) && crate::lambdaman::scanned(
                        a,
                        b,
                        x as int,
                        y as int,
                    ) implies found is Some && a == found.unwrap().0 && b
                    == found.unwrap().1 by {
                    if a == x && b == y - 1 {
                    } else {
                        assert(crate::lambdaman::scanned(a, b, x as int, (y - 1) as int));
                    }
                }
            }
            proof {
                assert(row.take(row.len() as int) =~= row);
                assert(grid.take(x + 1).drop_last() =~= grid.take(x as int));
                assert(grid.take(x + 1).last() == row);
                assert forall|a: int, b: int|
                    #[trigger] holds(grid, a, b, LCell::Lambdaman) && crate::lambdaman::scanned(
                        a,
                        b,
                        (x + 1) as int,
                        0,
                    ) implies found is Some && a == found.unwrap().0 && b
                    == found.unwrap().1 by {
                    if a == x {
                        assert(crate::lambdaman::scanned(a, b, x as int, row.len() as int));
                    } else {
                        assert(crate::lambdaman::scanned(a, b, x as int, 0));
                    }
                }
            }
            x = x + 1;
        }
        proof {
            assert(grid.take(grid.len() as int) =~= grid);
        }
        match found {
            None => {
                proof {
                    if some_lambdaman(grid) {
                        let (a, b) = choose|a: int, b: int|
                            #[trigger] holds(grid, a, b, LCell::Lambdaman);
                        assert(crate::lambdaman::scanned(a, b, grid.len() as int, 0));
                    }
                }
                Err(GameError::LambdamanCount)
            },
            Some(p) => {
                proof {
                    assert forall|a: int, b: int| #[trigger]
                        holds(grid, a, b, LCell::Lambdaman) implies a == p.0 && b == p.1 by {
                        assert(crate::lambdaman::scanned(a, b, grid.len() as int, 0));
                    }
                    assert(!two_lambdamen(grid));
                    assert(holds(grid, p.0 as int, p.1 as int, LCell::Lambdaman));
                    lemma_grid_count_update(grid, p.0 as int, p.1 as int, LCell::Empty);
                }
                assert(grid[p.0 as int] == rows@[p.0 as int]@);
                let mut row = rows[p.0].clone();
                assert(row@ =~= grid[p.0 as int]);
                row.set(p.1, LCell::Empty);
                rows.set(p.0, row);
                let g = Game { field: rows, height, width, pills, pos: p };
                proof {
                    let f = field_of(&g.field);
                    assert(f =~= grid.update(p.0 as int, grid[p.0 as int].update(p.1 as int, LCell::Empty)));
                    assert forall|i: int| 0 <= i < f.len() implies (#[trigger] f[i]).len() == width by {
                        assert(grid[i].len() == grid[0].len());
                    }
                    assert forall|a: int, b: int| !#[trigger] holds(f, a, b, LCell::Lambdaman) by {
                        if !(a == p.0 && b == p.1) {
                            assert(!holds(grid, a, b, LCell::Lambdaman) || (a == p.0 && b == p.1));
                        }
                    }
                }
                Ok(g)
            },
        }
    }
}

proof fn lemma_cells_of_ok(l: Seq<char>)
    requires
        forall|k: int| 0 <= k < l.len() ==> cell_of(#[trigger] l[k]) is Some,
    ensures
        cells_of(l) is Ok,
    decreases l.len(),
{
    if l.len() > 0 {
        assert(cell_of(l[l.len() - 1]) is Some);
        lemma_cells_of_ok(l.drop_last());
    }
}

/// Adds the row of the line `seg` unless it is empty.
fn push_row(rows: &mut Vec<Vec<LCell>>, seg: &Vec<char>, Ghost(done): Ghost<Seq<Seq<char>>>)
    requires
        forall|k: int| 0 <= k < seg.len() ==> cell_of(#[trigger] seg@[k]) is Some,
        field_of(&*old(rows)) == nonempty_lines(done).map_values(|l: Seq<char>| row_cells(l)),
    ensures
        field_of(&*final(rows)) == nonempty_lines(done.push(seg@)).map_values(
            |l: Seq<char>| row_cells(l),
        ),
        grid_total(field_of(&*final(rows))) <= grid_total(field_of(&*old(rows))) + seg.len(),
{
    let ghost all = done.push(seg@);
    assert(all.drop_last() =~= done);
    assert(all.last() == seg@);
    if seg.len() == 0 {
        return ;
    }
    proof {
        lemma_cells_of_ok(seg@);
        crate::lambdaman::lemma_cells_ascii(seg@);
    }
    let cells = match cells_from(seg) {
        Ok(c) => c,
        Err(_) => Vec::new(),
    };
    let ghost before = field_of(&*rows);
    rows.push(cells);
    proof {
        assert(field_of(&*rows) =~= before.push(cells@));
        assert(field_of(&*rows).drop_last() =~= before);
        assert(nonempty_lines(all) == nonempty_lines(done).push(seg@));
        assert(nonempty_lines(all).map_values(|l: Seq<char>| row_cells(l)) =~= nonempty_lines(
            done,
        ).map_values(|l: Seq<char>| row_cells(l)).push(row_cells(seg@)));
    }
}

/// The index of an upper-case variable name: its first letter, counted from
/// `A`.
pub fn varid(s: &str) -> (r: usize)
    requires
        s@.len() > 0,
        'A' as u32 <= s@[0] as u32,
    ensures
        r == s@[0] as u32 - 'A' as u32,
{
    let cs = crate::text::chars_of(s);
    (cs[0] as u32 - 'A' as u32) as usize
}

/// What playing one seed gives: the moves after which no pill was left, or
/// the pills left after every step.
#[derive(Debug, Clone, Copy, PartialEq, Eq, Structural)]
pub enum SeedOutcome {
    Solved(usize),
    Left(usize),
}

/// `n` steps of the game in direction `d`.
pub open spec fn repeat_step(
    g: (Seq<Seq<LCell>>, int, (int, int)),
    h: int,
    w: int,
    d: Direction,
    n: nat,
) -> (Seq<Seq<LCell>>, int, (int, int))
    decreases n,
{
    if n == 0 {
        g
    } else {
        game_step(repeat_step(g, h, w, d, (n - 1) as nat), h, w, d)
    }
}

/// The outcome of `k` more steps of the generator from `state`, each moving
/// `stride` times in the drawn direction, after `done` steps: the moves
/// made by the step after which no pill is left, else the pills left.
pub open spec fn seed_run(
    g: (Seq<Seq<LCell>>, int, (int, int)),
    h: int,
    w: int,
    rng: Rng,
    state: u64,
    stride: nat,
    k: nat,
    done: nat,
) -> SeedOutcome
    decreases k,
{
    if k == 0 {
        SeedOutcome::Left(g.1 as usize)
    } else {
        let g2 = repeat_step(g, h, w, drawn_direction(state), stride);
        if g2.1 == 0 {
            SeedOutcome::Solved(((done + 1) * stride) as usize)
        } else {
            seed_run(g2, h, w, rng, next_state(rng, state) as u64, stride, (k - 1) as nat, done + 1)
        }
    }
}

impl Game {
    /// A copy of the game.
    pub fn copy(&self) -> (r: Game)
        requires
            self.wf(),
        ensures
            r.wf(),
            r.state() == self.state(),
            r.height == self.height,
            r.width == self.width,
    {
        let mut rows: Vec<Vec<Cell>> = Vec::new();
        let mut i: usize = 0;
        while i < self.field.len()
            invariant
                i <= self.field.len(),
                field_of(&rows) == field_of(&self.field).take(i as int),
            decreases self.field.len() - i,
        {
            let mut row: Vec<Cell> = Vec::new();
            let mut j: usize = 0;
            while j < self.field[i].len()
                invariant
                    i < self.field.len(),
                    j <= self.field@[i as int].len(),
                    row@ == self.field@[i as int]@.take(j as int),
                decreases self.field@[i as int].len() - j,
            {
                row.push(self.field[i][j]);
                j = j + 1;
                assert(row@ =~= self.field@[i as int]@.take(j as int));
            }
            assert(row@ =~= self.field@[i as int]@);
            let ghost before = field_of(&rows);
            let ghost rv = row@;
            rows.push(row);
            assert(field_of(&rows) =~= before.push(rv));
            assert(field_of(&self.field).take(i + 1) =~= field_of(&self.field).take(i as int).push(rv));
            i = i + 1;
            assert(field_of(&rows) =~= field_of(&self.field).take(i as int));
        }
        assert(field_of(&self.field).take(self.field.len() as int) =~= field_of(&self.field));
        Game { field: rows, height: self.height, width: self.width, pills: self.pills, pos: self.pos }
    }
}

/// Plays the seed `seed` on a copy of the game (see `seed_run`): `steps`
/// draws of the generator, each moving `stride` times.
pub fn try_seed(game: &Game, rng: &Rng, seed: u64, stride: usize, steps: usize) -> (r: SeedOutcome)
    requires
        game.wf(),
        steps * stride <= usize::MAX,
    ensures
        r == seed_run(game.state(), game.height as int, game.width as int, *rng, seed, stride as nat, steps as nat, 0),
{
    let mut g = game.copy();
    let ghost h = game.height as int;
    let ghost w = game.width as int;
    let mut state = seed;
    let mut step: usize = 0;
    while step < steps
        invariant
            g.wf(),
            g.height == h,
            g.width == w,
            h == game.height,
            w == game.width,
            step <= steps,
            steps * stride <= usize::MAX,
            seed_run(game.state(), h, w, *rng, seed, stride as nat, steps as nat, 0) == seed_run(
                g.state(),
                h,
                w,
                *rng,
                state,
                stride as nat,
                (steps - step) as nat,
                step as nat,
            ),
        decreases steps - step,
    {
        let (dir, new_state) = rng.next(state);
        let ghost g0 = g.state();
        let ghost old_state = state;
        let ghost old_step = step;
        assert(seed_run(game.state(), h, w, *rng, seed, stride as nat, steps as nat, 0) == seed_run(
            g0,
            h,
            w,
            *rng,
            old_state,
            stride as nat,
            (steps - old_step) as nat,
            old_step as nat,
        ));
        let mut m: usize = 0;
        while m < stride
            invariant
                g.wf(),
                g.height == h,
                g.width == w,
                m <= stride,
                g.state() == repeat_step(g0, h, w, dir, m as nat),
            decreases stride - m,
        {
            g.step(dir);
            m = m + 1;
        }
        state = new_state;
        step = step + 1;
        if g.pills() == 0 {
            assert(step * stride <= steps * stride) by (nonlinear_arith)
                requires
                    step <= steps,
            ;
            assert(seed_run(g0, h, w, *rng, old_state, stride as nat, (steps - old_step) as nat, old_step as nat)
                == SeedOutcome::Solved(((old_step + 1) * stride) as usize));
            assert((old_step + 1) * stride == step * stride);
            let moves = step * stride;
            assert(moves == ((old_step + 1) * stride) as usize);
            assert(seed_run(game.state(), h, w, *rng, seed, stride as nat, steps as nat, 0) == SeedOutcome::Solved(
                moves,
            ));
            return SeedOutcome::Solved(moves);
        }
    }
    SeedOutcome::Left(g.pills())
}

/// Why no program was made for a seed.
#[derive(Debug, Clone, Copy, PartialEq, Eq, Structural)]
pub enum CompileError {
    /// The states of the generator repeat before the last one.
    SeedCycle,
    /// A stride other than one or two moves.
    UnsupportedStride(usize),
}

/// The state of the generator `k` steps after `seed`.
pub open spec fn seed_at(rng: Rng, seed: u64, k: nat) -> u64
    decreases k,
{
    if k == 0 {
        seed
    } else {
        next_state(rng, seed_at(rng, seed, (k - 1) as nat)) as u64
    }
}

/// The variable of a one-letter name (its distance from `A`).
pub open spec fn letter(c: char) -> usize {
    (c as int - 'A' as int) as usize
}

/// The application of `f` to `x`.
pub open spec fn app_t(f: Term, x: Term) -> Term {
    Term::Bin(BinOp::AppL, Box::new(f), Box::new(x))
}

/// The binary operation `op` on `a` and `b`.
pub open spec fn bin_t(op: BinOp, a: Term, b: Term) -> Term {
    Term::Bin(op, Box::new(a), Box::new(b))
}

/// The fixed-point combinator `fn f -> ((fn x -> (f (x x))) (fn x -> (f (x x))))`.
pub open spec fn fix_t() -> Term {
    let ghost f = letter('f');
    let x = letter('x');
    let half = Term::Lambda(x, Box::new(app_t(Term::Var(f), app_t(Term::Var(x), Term::Var(x)))));
    Term::Lambda(f, Box::new(app_t(half, half)))
}

/// The generator as a term of its state `s`.
pub open spec fn rng_t(rng: Rng) -> Term {
    let s = Term::Var(letter('s'));
    match rng {
        Rng::Default => bin_t(BinOp::Mod, bin_t(BinOp::Mul, s, Term::Int(48271)), Term::Int(18446744073709551557)),
        Rng::Better => bin_t(
            BinOp::Mod,
            bin_t(BinOp::Add, bin_t(BinOp::Mul, s, Term::Int(0xd1342543de82ef95)), Term::Int(1)),
            Term::Int(18446744073709551616),
        ),
    }
}

/// The moves of one step as a term of the state `s` (strides of one or
/// two moves).
pub open spec fn step_t(stride: usize) -> Term {
    let s = Term::Var(letter('s'));
    let top = bin_t(BinOp::Div, s, Term::Int(4611686018427387904));
    if stride == 1 {
        bin_t(BinOp::Take, Term::Int(1), bin_t(BinOp::Drop, top, Term::Str("LUDR"@)))
    } else {
        bin_t(BinOp::Take, Term::Int(2), bin_t(BinOp::Drop, bin_t(BinOp::Mul, top, Term::Int(2)), Term::Str("LLUUDDRR"@)))
    }
}

/// The program that prints `header` and the moves drawn from `seed` until
/// the generator reaches `last`.
pub open spec fn seed_program(rng: Rng, header: Seq<char>, seed: int, last: int, stride: usize) -> Term {
    let ghost f = letter('f');
    let s = letter('s');
    let body = Term::If(
        Box::new(bin_t(BinOp::Eq, Term::Var(s), Term::Int(last))),
        Box::new(Term::Str(Seq::empty())),
        Box::new(bin_t(BinOp::Concat, step_t(stride), app_t(Term::Var(f), rng_t(rng)))),
    );
    let lam = Term::Lambda(f, Box::new(Term::Lambda(s, Box::new(body))));
    bin_t(BinOp::Concat, Term::Str(header), app_t(app_t(fix_t(), lam), Term::Int(seed)))
}

/// The program for the seed `seed` of the problem `problem_id`, `moves`
/// moves in steps of `stride`, or why there is none.
pub open spec fn compiled(rng: Rng, problem_id: usize, seed: u64, stride: usize, moves: usize) -> Result<
    Term,
    CompileError,
> {
    let steps = (moves / stride) as nat;
    let last = seed_at(rng, seed, steps);
    if exists|k: int| 0 <= k < steps && #[trigger] seed_at(rng, seed, k as nat) == last {
        Err(CompileError::SeedCycle)
    } else if stride != 1 && stride != 2 {
        Err(CompileError::UnsupportedStride(stride))
    } else {
        Ok(seed_program(rng, "solve lambdaman"@ + digits_text(problem_id as nat) + " "@, seed as int, last as int, stride))
    }
}

fn bin_e(op: BinOp, a: Expr, b: Expr) -> (r: Expr)
    ensures
        r.term() == bin_t(op, a.term(), b.term()),
{
    Expr::Bin(op, Box::new(a), Box::new(b))
}

fn app_e(f: Expr, x: Expr) -> (r: Expr)
    ensures
        r.term() == app_t(f.term(), x.term()),
{
    Expr::Bin(BinOp::AppL, Box::new(f), Box::new(x))
}

fn letter_e(c: char) -> (r: usize)
    requires
        'A' <= c <= 'z',
    ensures
        r == letter(c),
{
    (c as u32 - 'A' as u32) as usize
}

fn var_e(c: char) -> (r: Expr)
    requires
        'A' <= c <= 'z',
    ensures
        r.term() == Term::Var(letter(c)),
{
    Expr::Var(letter_e(c))
}

fn int_e(n: u128) -> (r: Expr)
    ensures
        r.term() == Term::Int(n as int),
{
    Expr::Int(BigNum::from_u128(n))
}

fn fix_e() -> (r: Expr)
    ensures
        r.term() == fix_t(),
{
    let h1 = Expr::Lambda(letter_e('x'), Box::new(app_e(var_e('f'), app_e(var_e('x'), var_e('x')))));
    let h2 = Expr::Lambda(letter_e('x'), Box::new(app_e(var_e('f'), app_e(var_e('x'), var_e('x')))));
    Expr::Lambda(letter_e('f'), Box::new(app_e(h1, h2)))
}

/// The expression of `seed_program`, from the expressions of its parts.
fn seed_expr(rng: &Rng, rng_expr: Expr, step_expr: Expr, header: String, seed: u64, last: u64, stride: usize) -> (r: Expr)
    requires
        rng_expr.term() == rng_t(*rng),
        step_expr.term() == step_t(stride),
    ensures
        r.term() == seed_program(*rng, header@, seed as int, last as int, stride),
{
    let empty = String::new();
    let cond = bin_e(BinOp::Eq, var_e('s'), int_e(last as u128));
    let rest = bin_e(BinOp::Concat, step_expr, app_e(var_e('f'), rng_expr));
    let e = Expr::String(empty);
    assert(e.term() == Term::Str(Seq::empty()));
    let body = Expr::If(Box::new(cond), Box::new(e), Box::new(rest));
    assert(body.term() == Term::If(Box::new(cond.term()), Box::new(e.term()), Box::new(rest.term())));
    let inner = Expr::Lambda(letter_e('s'), Box::new(body));
    let lam = Expr::Lambda(letter_e('f'), Box::new(inner));
    let call = app_e(app_e(fix_e(), lam), int_e(seed as u128));
    let ghost hv = header@;
    let ghost f = letter('f');
    let ghost sv = letter('s');
    let ghost tb = Term::If(
        Box::new(bin_t(BinOp::Eq, Term::Var(sv), Term::Int(last as int))),
        Box::new(Term::Str(Seq::empty())),
        Box::new(bin_t(BinOp::Concat, step_t(stride), app_t(Term::Var(f), rng_t(*rng)))),
    );
    assert(body.term() == tb);
    assert(inner.term() == Term::Lambda(sv, Box::new(tb)));
    assert(lam.term() == Term::Lambda(f, Box::new(Term::Lambda(sv, Box::new(tb)))));
    assert(call.term() == app_t(app_t(fix_t(), Term::Lambda(f, Box::new(Term::Lambda(sv, Box::new(tb))))), Term::Int(seed as int)));
    let prog = bin_e(BinOp::Concat, Expr::String(header), call);
    assert(prog.term() == seed_program(*rng, hv, seed as int, last as int, stride));
    prog
}

impl Rng {
    /// The generator as an expression of its state `s` (see `rng_t`).
    fn expr(&self) -> (r: Expr)
        ensures
            r.term() == rng_t(*self),
    {
        match self {
            Rng::Default => bin_e(BinOp::Mod, bin_e(BinOp::Mul, var_e('s'), int_e(48271)), int_e(18446744073709551557)),
            Rng::Better => bin_e(
                BinOp::Mod,
                bin_e(BinOp::Add, bin_e(BinOp::Mul, var_e('s'), int_e(0xd1342543de82ef95)), int_e(1)),
                int_e(18446744073709551616),
            ),
        }
    }

    /// The program that draws the moves of the seed `seed` for the problem
    /// `problem_id` (see `compiled`): the states from the seed are followed
    /// for `moves / stride` steps, and the program stops at the last one;
    /// refused when a state repeats before it, or for a stride other than
    /// one or two.
    pub fn compile_expr(&self, problem_id: usize, seed: u64, stride: usize, moves: usize) -> (r: Result<
        Expr,
        CompileError,
    >)
        requires
            stride > 0,
        ensures
            match r {
                Ok(e) => compiled(*self, problem_id, seed, stride, moves) == Ok::<Term, CompileError>(e.term()),
                Err(er) => compiled(*self, problem_id, seed, stride, moves) == Err::<Term, CompileError>(er),
            },
    {
        let rng_expr = self.expr();
        let mut header = String::from_str("solve lambdaman");
        let digits = usize_text(problem_id);
        append_str(&mut header, digits.as_str());
        append_str(&mut header, " ");
        let steps = moves / stride;
        let mut seeds: Vec<u64> = Vec::new();
        seeds.push(seed);
        let mut k: usize = 0;
        while k < steps
            invariant
                k <= steps,
                seeds.len() == k + 1,
                forall|j: int| 0 <= j <= k ==> #[trigger] seeds@[j] == seed_at(*self, seed, j as nat),
            decreases steps - k,
        {
            let (_, new_seed) = self.next(seeds[seeds.len() - 1]);
            seeds.push(new_seed);
            k = k + 1;
        }
        let last_seed = seeds.pop().unwrap();
        let mut j: usize = 0;
        while j < seeds.len()
            invariant
                stride > 0,
                steps == moves / stride,
                seeds.len() == steps,
                last_seed == seed_at(*self, seed, steps as nat),
                forall|i: int| 0 <= i < steps ==> #[trigger] seeds@[i] == seed_at(*self, seed, i as nat),
                j <= seeds.len(),
                forall|i: int| 0 <= i < j ==> #[trigger] seed_at(*self, seed, i as nat) != last_seed,
            decreases seeds.len() - j,
        {
            if seeds[j] == last_seed {
                assert(seed_at(*self, seed, j as nat) == last_seed);
                assert(seed_at(*self, seed, (j as int) as nat) == seed_at(*self, seed, steps as nat));
                return Err(CompileError::SeedCycle);
            }
            j = j + 1;
        }
        let step_expr = if stride == 1 {
            bin_e(BinOp::Take, int_e(1), bin_e(BinOp::Drop, bin_e(BinOp::Div, var_e('s'), int_e(4611686018427387904)), Expr::String(String::from_str("LUDR"))))
        } else if stride == 2 {
            bin_e(
                BinOp::Take,
                int_e(2),
                bin_e(
                    BinOp::Drop,
                    bin_e(BinOp::Mul, bin_e(BinOp::Div, var_e('s'), int_e(4611686018427387904)), int_e(2)),
                    Expr::String(String::from_str("LLUUDDRR")),
                ),
            )
        } else {
            return Err(CompileError::UnsupportedStride(stride));
        };
        assert(step_expr.term() == step_t(stride)) by {
            reveal_strlit("LUDR");
            reveal_strlit("LLUUDDRR");
        }
        let prog = seed_expr(self, rng_expr, step_expr, header, seed, last_seed, stride);
        assert(!exists|i: int| 0 <= i < steps && #[trigger] seed_at(*self, seed, i as nat) == seed_at(*self, seed, steps as nat));
        Ok(prog)
    }
}

} // verus!
