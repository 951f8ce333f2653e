use vstd::prelude::*;

use crate::text::{is_whitespace, is_ws, push_char};

verus! {

/// A cell of a Lambda-Man map.
#[derive(Debug, Clone, Copy, PartialEq, Eq, Structural)]
pub enum LCell {
    Wall,
    Empty,
    Pill,
    Lambdaman,
}

/// Why a map was refused or a move failed.
#[derive(Debug, Clone, Copy, PartialEq, Eq, Structural)]
pub enum MapError {
    /// A character that is no cell.
    UnknownCell(char),
    /// A line whose length differs from the first line's.
    InconsistentLineLength,
    /// More than one Lambda-Man on the map.
    MultipleLambdamen,
    /// No Lambda-Man on the map.
    LambdamanNotFound,
    /// A character that is no move.
    UnknownInstruction(char),
    /// A move off the map.
    OutOfMap,
}

// ---------------------------------------------------------------------------
// Lines of the map text
// ---------------------------------------------------------------------------

/// The pieces of `s` between line feeds.
pub open spec fn segments(s: Seq<char>) -> Seq<Seq<char>>
    decreases s.len(),
{
    if s.len() == 0 {
        seq![Seq::<char>::empty()]
    } else {
        let prev = segments(s.drop_last());
        if s.last() == '\n' {
            prev.push(Seq::<char>::empty())
        } else {
            prev.update(prev.len() - 1, prev.last().push(s.last()))
        }
    }
}

/// `line` without its trailing white space.
pub open spec fn trim_end(line: Seq<char>) -> Seq<char>
    decreases line.len(),
{
    if line.len() > 0 && is_ws(line.last()) {
        trim_end(line.drop_last())
    } else {
        line
    }
}

/// `line` without its leading white space.
pub open spec fn trim_start(line: Seq<char>) -> Seq<char>
    decreases line.len(),
{
    if line.len() > 0 && is_ws(line[0]) {
        trim_start(line.drop_first())
    } else {
        line
    }
}

/// `line` without leading and trailing white space.
pub open spec fn trim(line: Seq<char>) -> Seq<char> {
    trim_start(trim_end(line))
}

/// The trimmed lines that are not empty, in order.
pub open spec fn kept_lines(ls: Seq<Seq<char>>) -> Seq<Seq<char>>
    decreases ls.len(),
{
    if ls.len() == 0 {
        Seq::empty()
    } else {
        let prev = kept_lines(ls.drop_last());
        let t = trim(ls.last());
        if t.len() == 0 {
            prev
        } else {
            prev.push(t)
        }
    }
}

/// The number of bytes of `c` in UTF-8.
pub open spec fn utf8_len(c: char) -> int {
    let u = c as u32;
    if u < 0x80 {
        1
    } else if u < 0x800 {
        2
    } else if u < 0x10000 {
        3
    } else {
        4
    }
}

/// The number of bytes of `line` in UTF-8.
pub open spec fn byte_len(line: Seq<char>) -> int
    decreases line.len(),
{
    if line.len() == 0 {
        0
    } else {
        byte_len(line.drop_last()) + utf8_len(line.last())
    }
}

/// The cell that a character stands for.
pub open spec fn cell_of(c: char) -> Option<LCell> {
    if c == '#' {
        Some(LCell::Wall)
    } else if c == ' ' {
        Some(LCell::Empty)
    } else if c == '.' {
        Some(LCell::Pill)
    } else if c == 'L' {
        Some(LCell::Lambdaman)
    } else {
        None
    }
}

/// The cells of a line, or the first character that is no cell.
pub open spec fn cells_of(line: Seq<char>) -> Result<Seq<LCell>, char>
    decreases line.len(),
{
    if line.len() == 0 {
        Ok(Seq::empty())
    } else {
        match cells_of(line.drop_last()) {
            Err(c) => Err(c),
            Ok(cells) => match cell_of(line.last()) {
                Some(cell) => Ok(cells.push(cell)),
                None => Err(line.last()),
            },
        }
    }
}

/// The rows of cells of the lines `ls`, or the first error: a line of another
/// length (in bytes) than the first, or a character that is no cell.
pub open spec fn parse_rows(ls: Seq<Seq<char>>) -> Result<Seq<Seq<LCell>>, MapError>
    decreases ls.len(),
{
    if ls.len() == 0 {
        Ok(Seq::empty())
    } else {
        match parse_rows(ls.drop_last()) {
            Err(e) => Err(e),
            Ok(rows) => if ls.len() > 1 && byte_len(ls.last()) != byte_len(ls[0]) {
                Err(MapError::InconsistentLineLength)
            } else {
                match cells_of(ls.last()) {
                    Err(c) => Err(MapError::UnknownCell(c)),
                    Ok(cells) => Ok(rows.push(cells)),
                }
            },
        }
    }
}

/// The number of cells equal to `cell` in `row`.
pub open spec fn row_count(row: Seq<LCell>, cell: LCell) -> int
    decreases row.len(),
{
    if row.len() == 0 {
        0
    } else {
        row_count(row.drop_last(), cell) + if row.last() == cell {
            1int
        } else {
            0int
        }
    }
}

/// The number of cells equal to `cell` in `rows`.
pub open spec fn grid_count(rows: Seq<Seq<LCell>>, cell: LCell) -> int
    decreases rows.len(),
{
    if rows.len() == 0 {
        0
    } else {
        grid_count(rows.drop_last(), cell) + row_count(rows.last(), cell)
    }
}

/// `(x, y)` is a cell of `rows` that holds `cell`.
pub open spec fn holds(rows: Seq<Seq<LCell>>, x: int, y: int, cell: LCell) -> bool {
    0 <= x < rows.len() && 0 <= y < rows[x].len() && rows[x][y] == cell
}

/// A map of the rows `rows`: rectangular, with one Lambda-Man at `pos`,
/// `pills` pills.
pub open spec fn map_of(rows: Seq<Seq<LCell>>, pills: int, pos: (int, int)) -> bool {
    &&& rows.len() > 0
    &&& forall|i: int| 0 <= i < rows.len() ==> (#[trigger] rows[i]).len() == rows[0].len()
    &&& holds(rows, pos.0, pos.1, LCell::Lambdaman)
    &&& forall|x: int, y: int|
        #[trigger] holds(rows, x, y, LCell::Lambdaman) ==> x == pos.0 && y == pos.1
    &&& pills == grid_count(rows, LCell::Pill)
}

/// There are two Lambda-Men on the map.
pub open spec fn two_lambdamen(rows: Seq<Seq<LCell>>) -> bool {
    exists|a: int, b: int, c: int, d: int|
        #[trigger] holds(rows, a, b, LCell::Lambdaman) && #[trigger] holds(
            rows,
            c,
            d,
            LCell::Lambdaman,
        ) && (a != c || b != d)
}

/// There is a Lambda-Man on the map.
pub open spec fn some_lambdaman(rows: Seq<Seq<LCell>>) -> bool {
    exists|a: int, b: int| #[trigger] holds(rows, a, b, LCell::Lambdaman)
}

/// The cells of the map written in `s`, or why it is refused: the lines of
/// `s` are trimmed, empty ones skipped; every line must have the length (in
/// bytes) of the first and be made of cells (`#` wall, ` ` empty, `.` pill,
/// `L` Lambda-Man); there must be exactly one Lambda-Man.
pub open spec fn parsed_map(s: Seq<char>) -> Result<Seq<Seq<LCell>>, MapError> {
    match parse_rows(kept_lines(segments(s))) {
        Err(e) => Err(e),
        Ok(rows) => if two_lambdamen(rows) {
            Err(MapError::MultipleLambdamen)
        } else if !some_lambdaman(rows) {
            Err(MapError::LambdamanNotFound)
        } else {
            Ok(rows)
        },
    }
}

/// The number of cells of `rows`.
pub open spec fn grid_total(rows: Seq<Seq<LCell>>) -> int
    decreases rows.len(),
{
    if rows.len() == 0 {
        0
    } else {
        grid_total(rows.drop_last()) + rows.last().len()
    }
}

/// A Lambda-Man map: the cells, the number of pills left, and where Lambda-Man
/// stands.
#[derive(Debug)]
pub struct LMap {
    data: Vec<Vec<LCell>>,
    pills: usize,
    pos: (usize, usize),
}

impl LMap {
    /// The cells, row by row.
    pub closed spec fn cells(&self) -> Seq<Seq<LCell>> {
        self.data@.map_values(|row: Vec<LCell>| row@)
    }

    /// The number of pills left.
    pub closed spec fn pill_count(&self) -> int {
        self.pills as int
    }

    /// Where Lambda-Man stands.
    pub closed spec fn position(&self) -> (int, int) {
        (self.pos.0 as int, self.pos.1 as int)
    }

    /// The map is rectangular, with one Lambda-Man at its position and its
    /// pill count.
    pub open spec fn wf(&self) -> bool {
        map_of(self.cells(), self.pill_count(), self.position())
    }

    /// Reads a map: one line of cells per line of `s` (see `parsed_map`).
    #[verifier::rlimit(100)]
    pub fn from_str(s: &str) -> (r: Result<LMap, MapError>)
        ensures
            match parsed_map(s@) {
                Err(e) => r == Err::<LMap, MapError>(e),
                Ok(rows) => r matches Ok(m) && m.wf() && m.cells() == rows,
            },
    {
        let chars = crate::text::chars_of(s);
        let n = chars.len();
        let mut rows: Vec<Vec<LCell>> = Vec::new();
        let mut width: u128 = 0;
        let mut err: Option<MapError> = None;
        let mut cur: Vec<char> = Vec::new();
        let ghost mut done: Seq<Seq<char>> = Seq::empty();
        proof {
            assert(rows@.map_values(|r: Vec<LCell>| r@) =~= Seq::<Seq<LCell>>::empty());
            assert(kept_lines(done) =~= Seq::<Seq<char>>::empty());
            assert(s@.take(0) =~= Seq::<char>::empty());
            assert(done.push(cur@) =~= seq![Seq::<char>::empty()]);
        }
        let mut i: usize = 0;
        while i < n
            invariant
                n == chars.len(),
                chars@ == s@,
                i <= n,
                segments(s@.take(i as int)) == done.push(cur@),
                grid_total(rows@.map_values(|r: Vec<LCell>| r@)) + cur.len() <= i,
                line_state(done, rows@.map_values(|r: Vec<LCell>| r@), width as int, err),
            decreases n - i,
        {
            let c = chars[i];
            proof {
                assert(s@.take(i + 1).drop_last() =~= s@.take(i as int));
                assert(s@.take(i + 1).last() == c);
            }
            if c == '\n' {
                proof {
                    lemma_grid_total_nonneg(rows@.map_values(|r: Vec<LCell>| r@));
                }
                add_line(&mut rows, &mut width, &mut err, &cur, Ghost(done));
                proof {
                    done = done.push(cur@);
                }
                cur = Vec::new();
                assert(segments(s@.take(i + 1)) =~= done.push(cur@));
            } else {
                let ghost old_cur = cur@;
                cur.push(c);
                proof {
                    let prev = done.push(old_cur);
                    assert(segments(s@.take(i + 1)) =~= prev.update(
                        prev.len() - 1,
                        prev.last().push(c),
                    ));
                    assert(done.push(cur@) =~= prev.update(prev.len() - 1, prev.last().push(c)));
                }
            }
            i = i + 1;
        }
        proof {
            assert(s@.take(n as int) =~= s@);
            lemma_grid_total_nonneg(rows@.map_values(|r: Vec<LCell>| r@));
        }
        add_line(&mut rows, &mut width, &mut err, &cur, Ghost(done));
        let ghost all = done.push(cur@);
        assert(segments(s@) == all);
        match err {
            Some(e) => {
                return Err(e);
            },
            None => {},
        }
        let ghost grid = rows@.map_values(|r: Vec<LCell>| r@);
        assert(parse_rows(kept_lines(segments(s@))) == Ok::<Seq<Seq<LCell>>, MapError>(grid));
        // count the pills and find Lambda-Man
        let mut pills: usize = 0;
        let mut found: Option<(usize, usize)> = None;
        let mut x: usize = 0;
        while x < rows.len()
            invariant
                grid == rows@.map_values(|r: Vec<LCell>| r@),
                parse_rows(kept_lines(segments(s@))) == Ok::<Seq<Seq<LCell>>, MapError>(grid),
                forall|k: int| 0 <= k < grid.len() ==> (#[trigger] grid[k]).len() == width,
                grid.len() > 0 ==> width == grid[0].len(),
                grid_total(grid) <= n,
                x <= grid.len(),
                pills == grid_count(grid.take(x as int), LCell::Pill),
                pills <= grid_total(grid.take(x as int)),
                scan_state(grid, x as int, 0, found),
            decreases rows.len() - x,
        {
            assert(grid[x as int] == rows@[x as int]@);
            let ghost row = grid[x as int];
            let mut y: usize = 0;
            proof {
                lemma_grid_total_take(grid, x as int);
                assert(row.take(0) =~= Seq::<LCell>::empty());
            }
            while y < rows[x].len()
                invariant
                    grid == rows@.map_values(|r: Vec<LCell>| r@),
                    parse_rows(kept_lines(segments(s@))) == Ok::<Seq<Seq<LCell>>, MapError>(grid),
                    x < grid.len(),
                    row == grid[x as int],
                    row == rows@[x as int]@,
                    y <= row.len(),
                    grid_total(grid.take(x as int)) + row.len() <= n,
                    pills == grid_count(grid.take(x as int), LCell::Pill) + row_count(
                        row.take(y as int),
                        LCell::Pill,
                    ),
                    pills <= grid_total(grid.take(x as int)) + y,
                    scan_state(grid, x as int, y as int, found),
                decreases row.len() - y,
            {
                let cell = rows[x][y];
                proof {
                    assert(row.take(y + 1).drop_last() =~= row.take(y as int));
                }
                if cell == LCell::Pill {
                    pills = pills + 1;
                }
                if cell == LCell::Lambdaman {
                    match found {
                        Some(p) => {
                            proof {
                                assert(holds(grid, p.0 as int, p.1 as int, LCell::Lambdaman));
                                assert(holds(grid, x as int, y as int, LCell::Lambdaman));
                                assert(two_lambdamen(grid));
                            }
                            return Err(MapError::MultipleLambdamen);
                        },
                        None => {
                            found = Some((x, y));
                        },
                    }
                }
                y = y + 1;
                assert forall|a: int, b: int|
                    #[trigger] holds(grid, a, b, LCell::Lambdaman) && scanned(
                        a,
                        b,
                        x as int,
                        y as int,
                    ) implies found is Some && a == found.unwrap().0 && b
                    == found.unwrap().1 by {
                    if a == x && b == y - 1 {
                    } else {
                        assert(scanned(a, b, x as int, (y - 1) as int));
                    }
                }
            }
            proof {
                assert(row.take(row.len() as int) =~= row);
                assert(grid.take(x + 1).drop_last() =~= grid.take(x as int));
                assert(grid.take(x + 1).last() == row);
                assert forall|a: int, b: int|
                    #[trigger] holds(grid, a, b, LCell::Lambdaman) && scanned(
                        a,
                        b,
                        (x + 1) as int,
                        0,
                    ) implies found is Some && a == found.unwrap().0 && b
                    == found.unwrap().1 by {
                    if a == x {
                        assert(scanned(a, b, x as int, row.len() as int));
                    } else {
                        assert(scanned(a, b, x as int, 0));
                    }
                }
            }
            x = x + 1;
        }
        proof {
            assert(grid.take(grid.len() as int) =~= grid);
        }
        match found {
            None => {
                proof {
                    if some_lambdaman(grid) {
                        let (a, b) = choose|a: int, b: int|
                            #[trigger] holds(grid, a, b, LCell::Lambdaman);
                        assert(scanned(a, b, grid.len() as int, 0));
                    }
                }
                Err(MapError::LambdamanNotFound)
            },
            Some(p) => {
                proof {
                    assert forall|a: int, b: int| #[trigger]
                        holds(grid, a, b, LCell::Lambdaman) implies a == p.0 && b == p.1 by {
                        assert(scanned(a, b, grid.len() as int, 0));
                    }
                    assert(!two_lambdamen(grid));
                    assert(holds(grid, p.0 as int, p.1 as int, LCell::Lambdaman));
                }
                let m = LMap { data: rows, pills, pos: p };
                assert(m.cells() == grid);
                Ok(m)
            },
        }
    }

    /// The map as text: a line per row, a character per cell.
    pub fn to_string(&self) -> (r: String)
        ensures
            r@ == rendered(self.cells()),
    {
        let mut r = String::new();
        let mut x: usize = 0;
        let ghost grid = self.cells();
        while x < self.data.len()
            invariant
                grid == self.cells(),
                x <= grid.len(),
                r@ == rendered(grid.take(x as int)),
            decreases self.data.len() - x,
        {
            let ghost before = r@;
            let ghost row = grid[x as int];
            assert(row == self.data@[x as int]@);
            let mut y: usize = 0;
            while y < self.data[x].len()
                invariant
                    grid == self.cells(),
                    x < grid.len(),
                    row == grid[x as int],
                    row == self.data@[x as int]@,
                    y <= row.len(),
                    r@ == before + row_text(row.take(y as int)),
                decreases row.len() - y,
            {
                let c = match self.data[x][y] {
                    LCell::Wall => '#',
                    LCell::Empty => ' ',
                    LCell::Pill => '.',
                    LCell::Lambdaman => 'L',
                };
                push_char(&mut r, c);
                proof {
                    assert(row.take(y + 1).drop_last() =~= row.take(y as int));
                }
                y = y + 1;
                assert(r@ =~= before + row_text(row.take(y as int)));
            }
            push_char(&mut r, '\n');
            proof {
                assert(row.take(row.len() as int) =~= row);
                assert(grid.take(x + 1).drop_last() =~= grid.take(x as int));
            }
            x = x + 1;
            assert(r@ =~= rendered(grid.take(x as int)));
        }
        assert(grid.take(grid.len() as int) =~= grid);
        r
    }

    /// The map as a state: cells, pills left, position.
    pub open spec fn state(&self) -> (Seq<Seq<LCell>>, int, (int, int)) {
        (self.cells(), self.pill_count(), self.position())
    }

    /// The number of pills left.
    pub fn remaining_pills(&self) -> (r: usize)
        ensures
            r == self.pill_count(),
    {
        self.pills
    }

    fn set_cell(&mut self, x: usize, y: usize, c: LCell)
        requires
            x < old(self).cells().len(),
            y < old(self).cells()[x as int].len(),
        ensures
            final(self).cells() == old(self).cells().update(
                x as int,
                old(self).cells()[x as int].update(y as int, c),
            ),
            final(self).pill_count() == old(self).pill_count(),
            final(self).position() == old(self).position(),
    {
        let ghost old_cells = self.cells();
        assert(self.data@[x as int]@ == old_cells[x as int]);
        let mut row = self.data[x].clone();
        assert(row@ =~= old_cells[x as int]);
        row.set(y, c);
        self.data.set(x, row);
        assert(self.cells() =~= old_cells.update(x as int, old_cells[x as int].update(y as int, c)));
    }

    /// Moves Lambda-Man by each character of `instr` (`U`, `D`, `L`, `R`):
    /// into a wall it stays, onto a pill it eats it. Stops at the first
    /// character that is no move, or at a move off the map, with the moves
    /// before it made.
    pub fn do_move(&mut self, instr: &str) -> (r: Result<(), MapError>)
        requires
            old(self).wf(),
        ensures
            final(self).wf(),
            final(self).state() == run_moves(old(self).state(), instr@).0,
            r == run_moves(old(self).state(), instr@).1,
    {
        let height = self.data.len();
        let width = self.data[0].len();
        let ghost start = self.state();
        let mut i: usize = 0;
        let chars = crate::text::chars_of(instr);
        while i < chars.len()
            invariant
                self.wf(),
                chars@ == instr@,
                start == old(self).state(),
                i <= chars.len(),
                height == self.cells().len(),
                width == self.cells()[0].len(),
                run_moves(start, chars@.take(i as int)) == (self.state(), Ok::<(), MapError>(())),
            decreases chars.len() - i,
        {
            let c = chars[i];
            let ghost prev = self.state();
            proof {
                assert(chars@.take(i + 1).drop_last() =~= chars@.take(i as int));
                lemma_cells_bounded(self.cells(), self.position());
            }
            let (x, y) = self.pos;
            let next: Option<(usize, usize)> = if c == 'U' {
                if x == 0 {
                    None
                } else {
                    Some((x - 1, y))
                }
            } else if c == 'D' {
                if x + 1 >= height {
                    None
                } else {
                    Some((x + 1, y))
                }
            } else if c == 'L' {
                if y == 0 {
                    None
                } else {
                    Some((x, y - 1))
                }
            } else if c == 'R' {
                if y + 1 >= width {
                    None
                } else {
                    Some((x, y + 1))
                }
            } else {
                proof {
                    assert(chars@.take(i + 1).last() == c);
                    assert(step_map(prev, c) == Err::<(Seq<Seq<LCell>>, int, (int, int)), MapError>(
                        MapError::UnknownInstruction(c),
                    ));
                    assert(run_moves(start, chars@.take(i + 1)) == (prev, Err::<(), MapError>(
                        MapError::UnknownInstruction(c),
                    )));
                    lemma_run_moves_err(start, chars@, i + 1);
                }
                return Err(MapError::UnknownInstruction(c));
            };
            let (nx, ny) = match next {
                Some(p) => p,
                None => {
                    proof {
                        assert(chars@.take(i + 1).last() == c);
                        assert(step_map(prev, c) == Err::<(Seq<Seq<LCell>>, int, (int, int)), MapError>(
                            MapError::OutOfMap,
                        ));
                        assert(run_moves(start, chars@.take(i + 1)) == (prev, Err::<(), MapError>(
                            MapError::OutOfMap,
                        )));
                        lemma_run_moves_err(start, chars@, i + 1);
                    }
                    return Err(MapError::OutOfMap);
                },
            };
            assert(self.cells()[nx as int] == self.data@[nx as int]@);
            let target = self.data[nx][ny];
            if target != LCell::Wall {
                let ghost before = self.state();
                if target == LCell::Pill {
                    proof {
                        lemma_grid_count_update(self.cells(), nx as int, ny as int, LCell::Lambdaman);
                        lemma_grid_count_nonneg(
                            self.cells().update(
                                nx as int,
                                self.cells()[nx as int].update(ny as int, LCell::Lambdaman),
                            ),
                            LCell::Pill,
                        );
                    }
                    self.pills = self.pills - 1;
                }
                proof {
                    assert(holds(self.cells(), x as int, y as int, LCell::Lambdaman));
                    if target == LCell::Lambdaman {
                        assert(holds(self.cells(), nx as int, ny as int, LCell::Lambdaman));
                    }
                }
                self.set_cell(x, y, LCell::Empty);
                self.set_cell(nx, ny, LCell::Lambdaman);
                self.pos = (nx, ny);
                proof {
                    let c0 = before.0;
                    let c1 = c0.update(x as int, c0[x as int].update(y as int, LCell::Empty));
                    lemma_grid_count_update(c0, x as int, y as int, LCell::Empty);
                    lemma_grid_count_update(c1, nx as int, ny as int, LCell::Lambdaman);
                    assert(self.cells() == c1.update(
                        nx as int,
                        c1[nx as int].update(ny as int, LCell::Lambdaman),
                    ));
                    assert forall|i: int| 0 <= i < self.cells().len() implies (
                    #[trigger] self.cells()[i]).len() == self.cells()[0].len() by {
                        assert(c0[i].len() == c0[0].len());
                    }
                    assert forall|a: int, b: int| #[trigger]
                        holds(self.cells(), a, b, LCell::Lambdaman) implies a == nx && b == ny by {
                        if !(a == nx && b == ny) && !(a == x && b == y) {
                            assert(holds(c0, a, b, LCell::Lambdaman));
                        }
                    }
                }
            }
            assert(step_map(prev, c) == Ok::<_, MapError>(self.state()));
            i = i + 1;
        }
        proof {
            assert(chars@.take(chars.len() as int) =~= chars@);
        }
        Ok(())
    }
}

/// The character of a cell.
pub open spec fn cell_char(c: LCell) -> char {
    match c {
        LCell::Wall => '#',
        LCell::Empty => ' ',
        LCell::Pill => '.',
        LCell::Lambdaman => 'L',
    }
}

/// The characters of a row of cells.
pub open spec fn row_text(row: Seq<LCell>) -> Seq<char>
    decreases row.len(),
{
    if row.len() == 0 {
        Seq::empty()
    } else {
        row_text(row.drop_last()).push(cell_char(row.last()))
    }
}

/// The rows as text, each ended by a line feed.
pub open spec fn rendered(rows: Seq<Seq<LCell>>) -> Seq<char>
    decreases rows.len(),
{
    if rows.len() == 0 {
        Seq::empty()
    } else {
        rendered(rows.drop_last()) + row_text(rows.last()).push('\n')
    }
}

/// The cell `(a, b)` comes before `(x, y)` in row-major order.
pub open spec fn scanned(a: int, b: int, x: int, y: int) -> bool {
    a < x || (a == x && b < y)
}

/// The scan up to `(x, y)` found the Lambda-Man at `found`, and no other, or
/// none when `found` is `None`.
pub open spec fn scan_state(grid: Seq<Seq<LCell>>, x: int, y: int, found: Option<(usize, usize)>) -> bool {
    &&& found matches Some(p) ==> holds(grid, p.0 as int, p.1 as int, LCell::Lambdaman)
        && scanned(p.0 as int, p.1 as int, x, y)
    &&& forall|a: int, b: int|
        #[trigger] holds(grid, a, b, LCell::Lambdaman) && scanned(a, b, x, y) ==> found is Some
            && a == found.unwrap().0 && b == found.unwrap().1
}

/// The lines `done` have been read into `rows` (all `width` bytes and cells
/// long), or `err` is the first error among them.
pub open spec fn line_state(
    done: Seq<Seq<char>>,
    rows: Seq<Seq<LCell>>,
    width: int,
    err: Option<MapError>,
) -> bool {
    match parse_rows(kept_lines(done)) {
        Err(e) => err == Some(e),
        Ok(rs) => {
            &&& err is None
            &&& rows == rs
            &&& rows.len() == kept_lines(done).len()
            &&& rows.len() > 0 ==> width == byte_len(kept_lines(done)[0])
            &&& forall|k: int| 0 <= k < rows.len() ==> (#[trigger] rows[k]).len() == width
        },
    }
}

/// Reads the line `seg` into `rows`, unless an error was met already.
fn add_line(
    rows: &mut Vec<Vec<LCell>>,
    width: &mut u128,
    err: &mut Option<MapError>,
    seg: &Vec<char>,
    Ghost(done): Ghost<Seq<Seq<char>>>,
)
    requires
        line_state(done, old(rows)@.map_values(|r: Vec<LCell>| r@), *old(width) as int, *old(err)),
    ensures
        line_state(
            done.push(seg@),
            final(rows)@.map_values(|r: Vec<LCell>| r@),
            *final(width) as int,
            *final(err),
        ),
        grid_total(final(rows)@.map_values(|r: Vec<LCell>| r@)) <= grid_total(
            old(rows)@.map_values(|r: Vec<LCell>| r@),
        ) + seg.len(),
{
    let ghost old_rows = rows@.map_values(|r: Vec<LCell>| r@);
    let ghost kept = kept_lines(done);
    let ghost all = done.push(seg@);
    assert(all.drop_last() =~= done);
    assert(all.last() == seg@);
    let t = trim_chars(seg);
    if t.len() == 0 {
        assert(kept_lines(all) == kept);
        return ;
    }
    assert(kept_lines(all) == kept.push(t@));
    assert(kept.push(t@).drop_last() =~= kept);
    if err.is_some() {
        return ;
    }
    let bl = byte_len_u128(&t);
    if rows.len() > 0 && bl != *width {
        assert(kept.push(t@)[0] == kept[0]);
        *err = Some(MapError::InconsistentLineLength);
        return ;
    }
    match cells_from(&t) {
        Err(c) => {
            *err = Some(MapError::UnknownCell(c));
        },
        Ok(cells) => {
            proof {
                lemma_cells_ascii(t@);
                if kept.len() > 0 {
                    assert(kept.push(t@)[0] == kept[0]);
                }
            }
            if rows.len() == 0 {
                *width = bl;
            }
            rows.push(cells);
            proof {
                let new_rows = rows@.map_values(|r: Vec<LCell>| r@);
                assert(new_rows =~= old_rows.push(cells@));
                assert(new_rows.drop_last() =~= old_rows);
            }
        },
    }
}

/// `line` without leading and trailing white space.
fn trim_chars(line: &Vec<char>) -> (r: Vec<char>)
    ensures
        r@ == trim(line@),
        r.len() <= line.len(),
{
    let mut e = line.len();
    proof {
        assert(line@.take(e as int) =~= line@);
    }
    while e > 0 && is_whitespace(line[e - 1])
        invariant
            e <= line.len(),
            trim_end(line@) == trim_end(line@.take(e as int)),
        decreases e,
    {
        assert(line@.take(e as int).drop_last() =~= line@.take(e - 1));
        e = e - 1;
    }
    let mut b: usize = 0;
    assert(line@.take(e as int) =~= line@.subrange(0, e as int));
    while b < e && is_whitespace(line[b])
        invariant
            b <= e <= line.len(),
            trim_end(line@) == line@.take(e as int),
            trim(line@) == trim_start(line@.subrange(b as int, e as int)),
        decreases e - b,
    {
        assert(line@.subrange(b as int, e as int).drop_first() =~= line@.subrange(b + 1, e as int));
        b = b + 1;
    }
    let mut r: Vec<char> = Vec::new();
    let mut k = b;
    while k < e
        invariant
            b <= k <= e <= line.len(),
            r@ == line@.subrange(b as int, k as int),
        decreases e - k,
    {
        r.push(line[k]);
        k = k + 1;
        assert(r@ =~= line@.subrange(b as int, k as int));
    }
    r
}

/// The number of bytes of `t` in UTF-8.
pub(crate) fn byte_len_u128(t: &Vec<char>) -> (r: u128)
    ensures
        r == byte_len(t@),
{
    let mut acc: u128 = 0;
    let mut i: usize = 0;
    while i < t.len()
        invariant
            i <= t.len(),
            acc == byte_len(t@.take(i as int)),
            acc <= 4 * i,
        decreases t.len() - i,
    {
        let u = t[i] as u32;
        let l: u128 = if u < 0x80 {
            1
        } else if u < 0x800 {
            2
        } else if u < 0x10000 {
            3
        } else {
            4
        };
        assert(t@.take(i + 1).drop_last() =~= t@.take(i as int));
        acc = acc + l;
        i = i + 1;
    }
    assert(t@.take(t.len() as int) =~= t@);
    acc
}

/// The cells of `t`, or the first character that is no cell.
pub(crate) fn cells_from(t: &Vec<char>) -> (r: Result<Vec<LCell>, char>)
    ensures
        match cells_of(t@) {
            Ok(cells) => r matches Ok(v) && v@ == cells,
            Err(c) => r == Err::<Vec<LCell>, char>(c),
        },
{
    let mut v: Vec<LCell> = Vec::new();
    let mut i: usize = 0;
    while i < t.len()
        invariant
            i <= t.len(),
            cells_of(t@.take(i as int)) == Ok::<Seq<LCell>, char>(v@),
        decreases t.len() - i,
    {
        let c = t[i];
        assert(t@.take(i + 1).drop_last() =~= t@.take(i as int));
        let cell = if c == '#' {
            LCell::Wall
        } else if c == ' ' {
            LCell::Empty
        } else if c == '.' {
            LCell::Pill
        } else if c == 'L' {
            LCell::Lambdaman
        } else {
            proof {
                lemma_cells_of_err(t@, i + 1);
            }
            return Err(c);
        };
        v.push(cell);
        i = i + 1;
    }
    assert(t@.take(t.len() as int) =~= t@);
    Ok(v)
}

proof fn lemma_cells_of_err(t: Seq<char>, k: int)
    requires
        0 <= k <= t.len(),
        cells_of(t.take(k)) is Err,
    ensures
        cells_of(t) == cells_of(t.take(k)),
    decreases t.len() - k,
{
    if k == t.len() {
        assert(t.take(k) =~= t);
    } else {
        assert(t.drop_last().take(k) =~= t.take(k));
        lemma_cells_of_err(t.drop_last(), k);
    }
}

/// A line of cells is ASCII: as many bytes as cells.
pub(crate) proof fn lemma_cells_ascii(t: Seq<char>)
    requires
        cells_of(t) is Ok,
    ensures
        byte_len(t) == t.len(),
        cells_of(t).unwrap().len() == t.len(),
    decreases t.len(),
{
    if t.len() > 0 {
        lemma_cells_ascii(t.drop_last());
    }
}

pub(crate) proof fn lemma_grid_total_nonneg(rows: Seq<Seq<LCell>>)
    ensures
        grid_total(rows) >= 0,
    decreases rows.len(),
{
    if rows.len() > 0 {
        lemma_grid_total_nonneg(rows.drop_last());
    }
}

pub(crate) proof fn lemma_grid_total_take(rows: Seq<Seq<LCell>>, x: int)
    requires
        0 <= x < rows.len(),
    ensures
        grid_total(rows.take(x)) + rows[x].len() <= grid_total(rows),
    decreases rows.len(),
{
    if x == rows.len() - 1 {
        assert(rows.drop_last() =~= rows.take(x));
    } else {
        assert(rows.drop_last().take(x) =~= rows.take(x));
        lemma_grid_total_take(rows.drop_last(), x);
    }
}

/// Where a move character takes Lambda-Man: `U` up, `D` down, `L` left,
/// `R` right.
pub open spec fn move_delta(c: char) -> Option<(int, int)> {
    if c == 'U' {
        Some((-1, 0))
    } else if c == 'D' {
        Some((1, 0))
    } else if c == 'L' {
        Some((0, -1))
    } else if c == 'R' {
        Some((0, 1))
    } else {
        None
    }
}

/// One move on the state `(cells, pills, pos)`: an unknown character or a
/// move off the map fails; into a wall nothing changes; otherwise Lambda-Man
/// moves, eating a pill if there is one.
pub open spec fn step_map(m: (Seq<Seq<LCell>>, int, (int, int)), c: char) -> Result<
    (Seq<Seq<LCell>>, int, (int, int)),
    MapError,
> {
    match move_delta(c) {
        None => Err(MapError::UnknownInstruction(c)),
        Some(d) => {
            let cells = m.0;
            let (x, y) = m.2;
            let (nx, ny) = (x + d.0, y + d.1);
            if nx < 0 || nx >= cells.len() || ny < 0 || ny >= cells[0].len() {
                Err(MapError::OutOfMap)
            } else if cells[nx][ny] == LCell::Wall {
                Ok(m)
            } else {
                let pills = if cells[nx][ny] == LCell::Pill {
                    m.1 - 1
                } else {
                    m.1
                };
                let c1 = cells.update(x, cells[x].update(y, LCell::Empty));
                let c2 = c1.update(nx, c1[nx].update(ny, LCell::Lambdaman));
                Ok((c2, pills, (nx, ny)))
            }
        },
    }
}

/// The moves of `instr` from the state `m`, in order, up to the first that
/// fails: the state reached, and the error if one failed.
pub open spec fn run_moves(m: (Seq<Seq<LCell>>, int, (int, int)), instr: Seq<char>) -> (
    (Seq<Seq<LCell>>, int, (int, int)),
    Result<(), MapError>,
)
    decreases instr.len(),
{
    if instr.len() == 0 {
        (m, Ok(()))
    } else {
        let (m1, r1) = run_moves(m, instr.drop_last());
        match r1 {
            Err(e) => (m1, Err(e)),
            Ok(_) => match step_map(m1, instr.last()) {
                Err(e) => (m1, Err(e)),
                Ok(m2) => (m2, Ok(())),
            },
        }
    }
}

/// A move keeps the map well formed (one Lambda-Man, the pill count equal to
/// the pills on the map) and never adds pills.
pub proof fn law_step_keeps_map(m: (Seq<Seq<LCell>>, int, (int, int)), c: char)
    requires
        map_of(m.0, m.1, m.2),
    ensures
        step_map(m, c) matches Ok(m2) ==> map_of(m2.0, m2.1, m2.2) && m2.1 <= m.1,
{
    if let Ok(m2) = step_map(m, c) {
        let cells = m.0;
        let (x, y) = m.2;
        if m2 != m {
            let (nx, ny) = m2.2;
            assert(0 <= x < cells.len() && 0 <= y < cells[x].len());
            assert(0 <= nx < cells.len() && 0 <= ny < cells[0].len());
            assert(cells[nx].len() == cells[0].len());
            let c1 = cells.update(x, cells[x].update(y, LCell::Empty));
            lemma_grid_count_update(cells, x, y, LCell::Empty);
            lemma_grid_count_update(c1, nx, ny, LCell::Lambdaman);
            assert forall|i: int| 0 <= i < m2.0.len() implies (#[trigger] m2.0[i]).len()
                == m2.0[0].len() by {
                assert(cells[i].len() == cells[0].len());
            }
            assert forall|a: int, b: int| #[trigger]
                holds(m2.0, a, b, LCell::Lambdaman) implies a == nx && b == ny by {
                if !(a == nx && b == ny) && !(a == x && b == y) {
                    assert(holds(cells, a, b, LCell::Lambdaman));
                }
            }
            if cells[nx][ny] == LCell::Lambdaman {
                assert(holds(cells, nx, ny, LCell::Lambdaman));
            }
        }
    }
}

/// A run of moves keeps the map well formed and never adds pills.
pub proof fn law_moves_keep_map(m: (Seq<Seq<LCell>>, int, (int, int)), instr: Seq<char>)
    requires
        map_of(m.0, m.1, m.2),
    ensures
        map_of(run_moves(m, instr).0.0, run_moves(m, instr).0.1, run_moves(m, instr).0.2),
        run_moves(m, instr).0.1 <= m.1,
    decreases instr.len(),
{
    if instr.len() > 0 {
        law_moves_keep_map(m, instr.drop_last());
        let (m1, r1) = run_moves(m, instr.drop_last());
        law_step_keeps_map(m1, instr.last());
    }
}

/// Once a move fails, the later ones are not made.
proof fn lemma_run_moves_err(m: (Seq<Seq<LCell>>, int, (int, int)), s: Seq<char>, k: int)
    requires
        0 <= k <= s.len(),
        run_moves(m, s.take(k)).1 is Err,
    ensures
        run_moves(m, s) == run_moves(m, s.take(k)),
    decreases s.len() - k,
{
    if k == s.len() {
        assert(s.take(k) =~= s);
    } else {
        assert(s.drop_last().take(k) =~= s.take(k));
        lemma_run_moves_err(m, s.drop_last(), k);
    }
}

proof fn lemma_cells_bounded(rows: Seq<Seq<LCell>>, pos: (int, int))
    requires
        holds(rows, pos.0, pos.1, LCell::Lambdaman),
    ensures
        0 <= pos.0 < rows.len(),
        0 <= pos.1 < rows[pos.0].len(),
{
}

proof fn lemma_row_count_update(row: Seq<LCell>, y: int, v: LCell, cell: LCell)
    requires
        0 <= y < row.len(),
    ensures
        row_count(row.update(y, v), cell) == row_count(row, cell) - (if row[y] == cell {
            1int
        } else {
            0int
        }) + (if v == cell {
            1int
        } else {
            0int
        }),
    decreases row.len(),
{
    let r2 = row.update(y, v);
    if y == row.len() - 1 {
        assert(r2.drop_last() =~= row.drop_last());
    } else {
        assert(r2.drop_last() =~= row.drop_last().update(y, v));
        lemma_row_count_update(row.drop_last(), y, v, cell);
    }
}

pub(crate) proof fn lemma_grid_count_update(rows: Seq<Seq<LCell>>, x: int, y: int, v: LCell)
    requires
        0 <= x < rows.len(),
        0 <= y < rows[x].len(),
    ensures
        grid_count(rows.update(x, rows[x].update(y, v)), LCell::Pill) == grid_count(
            rows,
            LCell::Pill,
        ) - (if rows[x][y] == LCell::Pill {
            1int
        } else {
            0int
        }) + (if v == LCell::Pill {
            1int
        } else {
            0int
        }),
    decreases rows.len(),
{
    let r2 = rows.update(x, rows[x].update(y, v));
    lemma_row_count_update(rows[x], y, v, LCell::Pill);
    if x == rows.len() - 1 {
        assert(r2.drop_last() =~= rows.drop_last());
    } else {
        assert(r2.drop_last() =~= rows.drop_last().update(x, rows[x].update(y, v)));
        lemma_grid_count_update(rows.drop_last(), x, y, v);
    }
}

proof fn lemma_row_count_nonneg(row: Seq<LCell>, cell: LCell)
    ensures
        row_count(row, cell) >= 0,
    decreases row.len(),
{
    if row.len() > 0 {
        lemma_row_count_nonneg(row.drop_last(), cell);
    }
}

pub(crate) proof fn lemma_grid_count_nonneg(rows: Seq<Seq<LCell>>, cell: LCell)
    ensures
        grid_count(rows, cell) >= 0,
    decreases rows.len(),
{
    if rows.len() > 0 {
        lemma_grid_count_nonneg(rows.drop_last(), cell);
        lemma_row_count_nonneg(rows.last(), cell);
    }
}

/// The number of occurrences of `c` in `s`.
pub open spec fn char_count(s: Seq<char>, c: char) -> int
    decreases s.len(),
{
    if s.len() == 0 {
        0
    } else {
        char_count(s.drop_last(), c) + if s.last() == c {
            1int
        } else {
            0int
        }
    }
}

proof fn lemma_char_count_concat(a: Seq<char>, b: Seq<char>, c: char)
    ensures
        char_count(a + b, c) == char_count(a, c) + char_count(b, c),
    decreases b.len(),
{
    if b.len() > 0 {
        assert((a + b).drop_last() =~= a + b.drop_last());
        lemma_char_count_concat(a, b.drop_last(), c);
    } else {
        assert(a + b =~= a);
    }
}

proof fn lemma_row_text_count(row: Seq<LCell>, cell: LCell, c: char)
    requires
        cell_char(cell) == c,
    ensures
        char_count(row_text(row), c) == row_count(row, cell),
    decreases row.len(),
{
    if row.len() > 0 {
        lemma_row_text_count(row.drop_last(), cell, c);
        assert(row_text(row).drop_last() =~= row_text(row.drop_last()));
    }
}

proof fn lemma_rendered_count(rows: Seq<Seq<LCell>>, cell: LCell, c: char)
    requires
        cell_char(cell) == c,
        c != '\n',
    ensures
        char_count(rendered(rows), c) == grid_count(rows, cell),
    decreases rows.len(),
{
    if rows.len() > 0 {
        lemma_rendered_count(rows.drop_last(), cell, c);
        let t = row_text(rows.last());
        lemma_row_text_count(rows.last(), cell, c);
        assert(t.push('\n').drop_last() =~= t);
        lemma_char_count_concat(rendered(rows.drop_last()), t.push('\n'), c);
    }
}

proof fn lemma_row_count_none(row: Seq<LCell>, cell: LCell)
    requires
        forall|y: int| 0 <= y < row.len() ==> row[y] != cell,
    ensures
        row_count(row, cell) == 0,
    decreases row.len(),
{
    if row.len() > 0 {
        lemma_row_count_none(row.drop_last(), cell);
    }
}

proof fn lemma_row_count_one(row: Seq<LCell>, cell: LCell, y: int)
    requires
        0 <= y < row.len(),
        row[y] == cell,
        forall|z: int| 0 <= z < row.len() && row[z] == cell ==> z == y,
    ensures
        row_count(row, cell) == 1,
    decreases row.len(),
{
    if y == row.len() - 1 {
        lemma_row_count_none(row.drop_last(), cell);
    } else {
        lemma_row_count_one(row.drop_last(), cell, y);
    }
}

proof fn lemma_grid_count_one(rows: Seq<Seq<LCell>>, cell: LCell, x: int, y: int)
    requires
        holds(rows, x, y, cell),
        forall|a: int, b: int| #[trigger] holds(rows, a, b, cell) ==> a == x && b == y,
    ensures
        grid_count(rows, cell) == 1,
    decreases rows.len(),
{
    let last = rows.len() - 1;
    if x == last {
        assert forall|a: int, b: int| #[trigger] holds(rows.drop_last(), a, b, cell) implies false by {
            assert(holds(rows, a, b, cell));
        }
        lemma_grid_count_none(rows.drop_last(), cell);
        assert forall|z: int| 0 <= z < rows.last().len() && rows.last()[z] == cell implies z == y by {
            assert(holds(rows, last, z, cell));
        }
        lemma_row_count_one(rows.last(), cell, y);
    } else {
        assert forall|z: int| 0 <= z < rows.last().len() implies rows.last()[z] != cell by {
            if rows.last()[z] == cell {
                assert(holds(rows, last, z, cell));
            }
        }
        lemma_row_count_none(rows.last(), cell);
        assert forall|a: int, b: int| #[trigger] holds(rows.drop_last(), a, b, cell) implies a == x && b == y by {
            assert(holds(rows, a, b, cell));
        }
        assert(holds(rows.drop_last(), x, y, cell));
        lemma_grid_count_one(rows.drop_last(), cell, x, y);
    }
}

proof fn lemma_grid_count_none(rows: Seq<Seq<LCell>>, cell: LCell)
    requires
        forall|a: int, b: int| #[trigger] holds(rows, a, b, cell) ==> false,
    ensures
        grid_count(rows, cell) == 0,
    decreases rows.len(),
{
    if rows.len() > 0 {
        let last = rows.len() - 1;
        assert forall|z: int| 0 <= z < rows.last().len() implies rows.last()[z] != cell by {
            if rows.last()[z] == cell {
                assert(holds(rows, last, z, cell));
            }
        }
        lemma_row_count_none(rows.last(), cell);
        assert forall|a: int, b: int| #[trigger] holds(rows.drop_last(), a, b, cell) implies false by {
            assert(holds(rows, a, b, cell));
        }
        lemma_grid_count_none(rows.drop_last(), cell);
    }
}

/// In the text of a map (`to_string`) the pills drawn are as many as the
/// pills the map counts (`remaining_pills`), and exactly one Lambda-Man is
/// drawn; every map that `from_str` gives and `do_move` keeps is such a map.
pub proof fn lemma_text_counts(m: &LMap)
    requires
        m.wf(),
    ensures
        char_count(rendered(m.cells()), '.') == m.pill_count(),
        char_count(rendered(m.cells()), 'L') == 1,
{
    lemma_rendered_count(m.cells(), LCell::Pill, '.');
    lemma_rendered_count(m.cells(), LCell::Lambdaman, 'L');
    lemma_grid_count_one(m.cells(), LCell::Lambdaman, m.position().0, m.position().1);
}

/// A move goes one cell in its direction: `U` to the row above, `D` to the
/// row below, `L` to the column on the left, `R` to the column on the
/// right. It fails off the map exactly when that cell is outside the map;
/// against a wall nothing changes; otherwise Lambda-Man ends on that cell,
/// eating the pill there if there is one.
pub proof fn law_move_direction(m: (Seq<Seq<LCell>>, int, (int, int)), c: char, dx: int, dy: int)
    requires
        map_of(m.0, m.1, m.2),
        (c == 'U' && dx == -1 && dy == 0) || (c == 'D' && dx == 1 && dy == 0) || (c == 'L' && dx == 0 && dy == -1)
            || (c == 'R' && dx == 0 && dy == 1),
    ensures
        (step_map(m, c) is Err) <==> !(0 <= m.2.0 + dx < m.0.len() && 0 <= m.2.1 + dy < m.0[0].len()),
        step_map(m, c) matches Ok(m2) ==> {
            let (nx, ny) = (m.2.0 + dx, m.2.1 + dy);
            &&& m.0[nx][ny] == LCell::Wall ==> m2 == m
            &&& m.0[nx][ny] != LCell::Wall ==> m2.2 == (nx, ny) && m2.1 == m.1 - (if m.0[nx][ny] == LCell::Pill {
                1int
            } else {
                0int
            })
        },
{
}

} // verus!
