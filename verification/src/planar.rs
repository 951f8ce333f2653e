//! The two-dimensional language: boards of cells that move numbers around,
//! compute, compare and warp back in time, read from text and simulated one
//! tick at a time.
use vstd::prelude::*;

use crate::bignum::{trunc_div, trunc_rem, BigNum};
use crate::lambdaman::{byte_len, byte_len_u128, segments};
use crate::printer::{decimal_text, str_of};
use crate::text::{chars_of, is_ws, joined, push_char, split_words, string_of, words};

verus! {

/// A cell of a board.
#[derive(Debug)]
pub enum Cell {
    Empty,
    InputA,
    InputB,
    Number(BigNum),
    Up,
    Down,
    Left,
    Right,
    Plus,
    Minus,
    Mul,
    Div,
    Rem,
    Warp(String),
    Eq,
    Neq,
    Submit,
    Label(String, Option<Box<Cell>>),
}

/// The model of a cell: numbers as integers, names as character sequences.
pub enum Tile {
    Empty,
    InputA,
    InputB,
    Number(int),
    Up,
    Down,
    Left,
    Right,
    Plus,
    Minus,
    Mul,
    Div,
    Rem,
    Warp(Seq<char>),
    Eq,
    Neq,
    Submit,
    Label(Seq<char>, Option<Box<Tile>>),
}

impl View for Cell {
    type V = Tile;

    open spec fn view(&self) -> Tile
        decreases self,
    {
        match self {
            Cell::Empty => Tile::Empty,
            Cell::InputA => Tile::InputA,
            Cell::InputB => Tile::InputB,
            Cell::Number(n) => Tile::Number(n@),
            Cell::Up => Tile::Up,
            Cell::Down => Tile::Down,
            Cell::Left => Tile::Left,
            Cell::Right => Tile::Right,
            Cell::Plus => Tile::Plus,
            Cell::Minus => Tile::Minus,
            Cell::Mul => Tile::Mul,
            Cell::Div => Tile::Div,
            Cell::Rem => Tile::Rem,
            Cell::Warp(l) => Tile::Warp(l@),
            Cell::Eq => Tile::Eq,
            Cell::Neq => Tile::Neq,
            Cell::Submit => Tile::Submit,
            Cell::Label(name, init) => Tile::Label(
                name@,
                match init {
                    Some(b) => Some(Box::new((**b).view())),
                    None => None,
                },
            ),
        }
    }
}

/// Errors of reading and running a board.
#[derive(Debug, Clone, Copy, PartialEq, Eq, Structural)]
pub enum PlanarError {
    /// A number cell outside `-99..=99`.
    InvalidNumber,
    /// A word that is no cell.
    InvalidCell,
    /// A label whose initial value is neither `A`, `B` nor an `i32`.
    InvalidLabelValue,
    /// A label that no warp refers to.
    UnusedLabel,
    /// A warp that refers to no label.
    LabelNotFound,
    /// A label left on the board when it runs.
    UnresolvedLabel,
    /// A cell that cannot act, such as a label written by an operator.
    NotImplemented,
    /// A move whose source or target is off the board.
    InvalidMove,
    /// Two writes to one cell in one tick.
    WriteTwice,
    /// A write off the board.
    InvalidWrite,
    /// An arithmetic operator that found no number in its cell.
    NonArithmetic,
    /// A comparison operator that found no comparison in its cell.
    NonComparison,
    /// A division or remainder by zero.
    DivisionByZero,
    /// A warp whose neighbours are off the board.
    OutsideBoard,
    /// A warp offset or time that does not fit in `i32`.
    WarpOutOfRange,
    /// Warps of one tick that go back by different times.
    InconsistentWarp,
    /// Warps of one tick that write different values to one cell.
    ConflictingWarp,
    /// A warp further back than the history, or forward.
    WarpOutOfTime,
}

/// The text of a cell.
pub open spec fn cell_text(c: Tile) -> Seq<char>
    decreases c,
{
    match c {
        Tile::Empty => "."@,
        Tile::InputA => "A"@,
        Tile::InputB => "B"@,
        Tile::Up => "^"@,
        Tile::Down => "v"@,
        Tile::Right => ">"@,
        Tile::Left => "<"@,
        Tile::Plus => "+"@,
        Tile::Minus => "-"@,
        Tile::Mul => "*"@,
        Tile::Div => "/"@,
        Tile::Rem => "%"@,
        Tile::Warp(l) => if l == "_"@ {
            "@"@
        } else {
            "@"@ + l
        },
        Tile::Eq => "="@,
        Tile::Neq => "#"@,
        Tile::Submit => "S"@,
        Tile::Number(n) => decimal_text(n),
        Tile::Label(name, init) => match init {
            Some(b) => name + "["@ + cell_text(*b) + "]"@,
            None => name,
        },
    }
}

/// `c` is a decimal digit.
pub open spec fn is_digit(c: char) -> bool {
    '0' <= c <= '9'
}

/// The value of a run of decimal digits.
pub open spec fn digits_value(s: Seq<char>) -> nat
    decreases s.len(),
{
    if s.len() == 0 {
        0
    } else {
        digits_value(s.drop_last()) * 10 + (s.last() as int - '0' as int) as nat
    }
}

/// Every character of `s` is a decimal digit.
pub open spec fn all_digits(s: Seq<char>) -> bool {
    forall|i: int| 0 <= i < s.len() ==> is_digit(#[trigger] s[i])
}

/// The integer that `s` writes as an optional sign and at least one decimal
/// digit.
pub open spec fn signed_value(s: Seq<char>) -> Option<int> {
    if s.len() > 0 && (s[0] == '+' || s[0] == '-') {
        let d = s.drop_first();
        if d.len() > 0 && all_digits(d) {
            Some(
                if s[0] == '-' {
                    -(digits_value(d) as int)
                } else {
                    digits_value(d) as int
                },
            )
        } else {
            None
        }
    } else if s.len() > 0 && all_digits(s) {
        Some(digits_value(s) as int)
    } else {
        None
    }
}

/// What `str::parse::<i32>` reads from `s`: the signed value, when it fits.
pub open spec fn parsed_i32(s: Seq<char>) -> Option<int> {
    match signed_value(s) {
        Some(v) => if i32::MIN <= v <= i32::MAX {
            Some(v)
        } else {
            None
        },
        None => None,
    }
}

/// Reads an `i32` written in decimal with an optional sign (what
/// `str::parse::<i32>` accepts).
pub fn parse_i32(s: &Vec<char>) -> (r: Option<i32>)
    ensures
        r matches Some(v) ==> parsed_i32(s@) == Some(v as int),
        r is None ==> parsed_i32(s@) is None,
{
    let n = s.len();
    if n == 0 {
        return None;
    }
    let neg = s[0] == '-';
    let start: usize = if s[0] == '+' || s[0] == '-' {
        1
    } else {
        0
    };
    if start == n {
        return None;
    }
    let ghost d = s@.subrange(start as int, n as int);
    let mut acc: i64 = 0;
    let mut big = false;
    let mut i = start;
    while i < n
        invariant
            start <= i <= n,
            n == s.len(),
            start == 0 || start == 1,
            start == 1 <==> (s@[0] == '+' || s@[0] == '-'),
            d == s@.subrange(start as int, n as int),
            forall|j: int| start <= j < i ==> is_digit(#[trigger] s@[j]),
            !big ==> acc == digits_value(d.take(i - start)),
            big ==> digits_value(d.take(i - start)) > 2147483648,
            0 <= acc <= 2147483648,
        decreases n - i,
    {
        let c = s[i];
        if !('0' <= c && c <= '9') {
            assert(!all_digits(d)) by {
                assert(d[i - start] == c);
            }
            proof {
                if start == 1 {
                    assert(s@.drop_first() =~= d);
                } else {
                    assert(s@ =~= d);
                }
            }
            return None;
        }
        let dig = (c as u32 - '0' as u32) as i64;
        proof {
            assert(d.take(i - start + 1).drop_last() =~= d.take(i - start));
            assert(d.take(i - start + 1).last() == c);
        }
        if !big {
            let next = acc * 10 + dig;
            if next > 2147483648 {
                big = true;
            } else {
                acc = next;
            }
        }
        i = i + 1;
    }
    proof {
        assert(d.take(d.len() as int) =~= d);
        assert(all_digits(d)) by {
            assert forall|j: int| 0 <= j < d.len() implies is_digit(#[trigger] d[j]) by {
                assert(d[j] == s@[start + j]);
            }
        }
        if start == 1 {
            assert(s@.drop_first() =~= d);
        } else {
            assert(s@ =~= d);
            assert(is_digit(s@[0]));
        }
    }
    if big {
        return None;
    }
    if neg {
        Some((-acc) as i32)
    } else if acc > 2147483647 {
        None
    } else {
        Some(acc as i32)
    }
}

/// The text before the first `[` of `s`, or all of it.
pub open spec fn before_char(s: Seq<char>, c: char) -> Seq<char>
    decreases s.len(),
{
    if s.len() == 0 {
        s
    } else if s[0] == c {
        Seq::empty()
    } else {
        seq![s[0]] + before_char(s.drop_first(), c)
    }
}

/// The text after the first `c` of `s` (empty when there is none).
pub open spec fn after_char(s: Seq<char>, c: char) -> Seq<char>
    decreases s.len(),
{
    if s.len() == 0 {
        s
    } else if s[0] == c {
        s.drop_first()
    } else {
        after_char(s.drop_first(), c)
    }
}

/// The name and initial value of a label cell: `name`, `name[A]`,
/// `name[B]` or `name[n]` for an `i32` `n`.
pub open spec fn label_parts(s: Seq<char>) -> Result<(Seq<char>, Option<Tile>), PlanarError> {
    if !s.contains('[') {
        Ok((s, None))
    } else {
        let name = before_char(s, '[');
        let inner = before_char(before_char(after_char(s, '['), '['), ']');
        if inner == "A"@ {
            Ok((name, Some(Tile::InputA)))
        } else if inner == "B"@ {
            Ok((name, Some(Tile::InputB)))
        } else {
            match parsed_i32(inner) {
                Some(v) => Ok((name, Some(Tile::Number(v)))),
                None => Err(PlanarError::InvalidLabelValue),
            }
        }
    }
}

/// The cell that the word `s` writes, or why it is refused.
pub open spec fn cell_of_text(s: Seq<char>) -> Result<Tile, PlanarError> {
    if s == "."@ {
        Ok(Tile::Empty)
    } else if s == "A"@ {
        Ok(Tile::InputA)
    } else if s == "B"@ {
        Ok(Tile::InputB)
    } else if s == "^"@ {
        Ok(Tile::Up)
    } else if s == "v"@ {
        Ok(Tile::Down)
    } else if s == ">"@ {
        Ok(Tile::Right)
    } else if s == "<"@ {
        Ok(Tile::Left)
    } else if s == "+"@ {
        Ok(Tile::Plus)
    } else if s == "-"@ {
        Ok(Tile::Minus)
    } else if s == "*"@ {
        Ok(Tile::Mul)
    } else if s == "/"@ {
        Ok(Tile::Div)
    } else if s == "%"@ {
        Ok(Tile::Rem)
    } else if s == "@"@ {
        Ok(Tile::Warp("_"@))
    } else if s == "="@ {
        Ok(Tile::Eq)
    } else if s == "#"@ {
        Ok(Tile::Neq)
    } else if s == "S"@ {
        Ok(Tile::Submit)
    } else {
        match parsed_i32(s) {
            Some(i) => if i <= -100 || i >= 100 {
                Err(PlanarError::InvalidNumber)
            } else {
                Ok(Tile::Number(i))
            },
            None => if s.len() >= 1 && s[0] != '@' {
                match label_parts(s) {
                    Ok((name, v)) => Ok(
                        Tile::Label(
                            name,
                            match v {
                                Some(t) => Some(Box::new(t)),
                                None => None,
                            },
                        ),
                    ),
                    Err(e) => Err(e),
                }
            } else if s.len() >= 2 && s[0] == '@' {
                Ok(Tile::Warp(s.drop_first()))
            } else {
                Err(PlanarError::InvalidCell)
            },
        }
    }
}

/// `s` has no `c` before `k`, and `c` at `k` unless `k` is its length.
pub open spec fn first_at(s: Seq<char>, c: char, k: int) -> bool {
    &&& 0 <= k <= s.len()
    &&& k < s.len() ==> s[k] == c
    &&& forall|j: int| 0 <= j < k ==> s[j] != c
}

proof fn lemma_first_at(s: Seq<char>, c: char, k: int)
    requires
        first_at(s, c, k),
    ensures
        before_char(s, c) == s.take(k),
        after_char(s, c) == if k < s.len() {
            s.skip(k + 1)
        } else {
            Seq::<char>::empty()
        },
        s.contains(c) <==> k < s.len(),
    decreases s.len(),
{
    if s.len() == 0 {
    } else if k == 0 {
        assert(s.drop_first() =~= s.skip(1));
    } else {
        assert(s[0] != c);
        lemma_first_at(s.drop_first(), c, k - 1);
        assert(s.take(k) =~= seq![s[0]] + s.drop_first().take(k - 1));
        if k < s.len() {
            assert(s.drop_first().skip(k) =~= s.skip(k + 1));
        }
        if s.contains(c) {
            let j = choose|j: int| 0 <= j < s.len() && s[j] == c;
            assert(s.drop_first()[j - 1] == c);
        }
        if s.drop_first().contains(c) {
            let j = choose|j: int| 0 <= j < s.drop_first().len() && s.drop_first()[j] == c;
            assert(s[j + 1] == c);
        }
    }
}

/// The first position of `c` in `s`, or its length.
fn find_char(s: &Vec<char>, c: char) -> (k: usize)
    ensures
        first_at(s@, c, k as int),
{
    let mut k: usize = 0;
    while k < s.len() && s[k] != c
        invariant
            k <= s.len(),
            forall|j: int| 0 <= j < k ==> s@[j] != c,
        decreases s.len() - k,
    {
        k = k + 1;
    }
    k
}

/// The characters of `s` from `a` to `b`.
fn slice_chars(s: &Vec<char>, a: usize, b: usize) -> (r: Vec<char>)
    requires
        a <= b <= s.len(),
    ensures
        r@ == s@.subrange(a as int, b as int),
{
    let mut r: Vec<char> = Vec::new();
    let mut i = a;
    while i < b
        invariant
            a <= i <= b <= s.len(),
            r@ == s@.subrange(a as int, i as int),
        decreases b - i,
    {
        r.push(s[i]);
        i = i + 1;
    }
    r
}

/// `cs` holds the characters of `lit`.
fn is_word(cs: &Vec<char>, lit: &str) -> (r: bool)
    ensures
        r == (cs@ == lit@),
{
    let t = string_of(cs);
    crate::text::str_eq(t.as_str(), lit)
}

/// Reads a label word: its name and initial value (see `label_parts`).
fn parse_label(s: &Vec<char>) -> (r: Result<(String, Option<Cell>), PlanarError>)
    ensures
        match r {
            Ok((name, v)) => label_parts(s@) == Ok::<(Seq<char>, Option<Tile>), PlanarError>((
                name@,
                match v {
                    Some(c) => Some(c@),
                    None => None,
                },
            )),
            Err(e) => label_parts(s@) == Err::<(Seq<char>, Option<Tile>), PlanarError>(e),
        },
{
    let k = find_char(s, '[');
    proof {
        lemma_first_at(s@, '[', k as int);
    }
    if k == s.len() {
        return Ok((string_of(s), None));
    }
    let name = slice_chars(s, 0, k);
    let rest = slice_chars(s, k + 1, s.len());
    assert(rest@ =~= s@.skip(k + 1));
    let k2 = find_char(&rest, '[');
    proof {
        lemma_first_at(rest@, '[', k2 as int);
    }
    let part = slice_chars(&rest, 0, k2);
    let k3 = find_char(&part, ']');
    proof {
        lemma_first_at(part@, ']', k3 as int);
    }
    let inner = slice_chars(&part, 0, k3);
    assert(name@ =~= s@.take(k as int));
    assert(part@ =~= rest@.take(k2 as int));
    assert(inner@ =~= part@.take(k3 as int));
    if is_word(&inner, "A") {
        return Ok((string_of(&name), Some(Cell::InputA)));
    }
    if is_word(&inner, "B") {
        return Ok((string_of(&name), Some(Cell::InputB)));
    }
    match parse_i32(&inner) {
        Some(v) => Ok((string_of(&name), Some(Cell::Number(BigNum::from_i64(v as i64))))),
        None => Err(PlanarError::InvalidLabelValue),
    }
}

impl Cell {
    /// A copy of this cell, with the same model.
    pub fn copy(&self) -> (r: Cell)
        ensures
            r@ == self@,
        decreases self,
    {
        match self {
            Cell::Empty => Cell::Empty,
            Cell::InputA => Cell::InputA,
            Cell::InputB => Cell::InputB,
            Cell::Number(n) => Cell::Number(n.copy()),
            Cell::Up => Cell::Up,
            Cell::Down => Cell::Down,
            Cell::Left => Cell::Left,
            Cell::Right => Cell::Right,
            Cell::Plus => Cell::Plus,
            Cell::Minus => Cell::Minus,
            Cell::Mul => Cell::Mul,
            Cell::Div => Cell::Div,
            Cell::Rem => Cell::Rem,
            Cell::Warp(l) => Cell::Warp(l.clone()),
            Cell::Eq => Cell::Eq,
            Cell::Neq => Cell::Neq,
            Cell::Submit => Cell::Submit,
            Cell::Label(name, init) => {
                let i = match init {
                    Some(b) => Some(Box::new((**b).copy())),
                    None => None,
                };
                Cell::Label(name.clone(), i)
            },
        }
    }

    /// Whether two cells are equal: the same kind, with equal numbers and
    /// names.
    pub fn same(&self, other: &Cell) -> (r: bool)
        ensures
            r == (self@ == other@),
        decreases self,
    {
        match (self, other) {
            (Cell::Empty, Cell::Empty) => true,
            (Cell::InputA, Cell::InputA) => true,
            (Cell::InputB, Cell::InputB) => true,
            (Cell::Number(a), Cell::Number(b)) => a.eq_value(b),
            (Cell::Up, Cell::Up) => true,
            (Cell::Down, Cell::Down) => true,
            (Cell::Left, Cell::Left) => true,
            (Cell::Right, Cell::Right) => true,
            (Cell::Plus, Cell::Plus) => true,
            (Cell::Minus, Cell::Minus) => true,
            (Cell::Mul, Cell::Mul) => true,
            (Cell::Div, Cell::Div) => true,
            (Cell::Rem, Cell::Rem) => true,
            (Cell::Warp(a), Cell::Warp(b)) => crate::text::str_eq(a.as_str(), b.as_str()),
            (Cell::Eq, Cell::Eq) => true,
            (Cell::Neq, Cell::Neq) => true,
            (Cell::Submit, Cell::Submit) => true,
            (Cell::Label(na, ia), Cell::Label(nb, ib)) => {
                if !crate::text::str_eq(na.as_str(), nb.as_str()) {
                    return false;
                }
                match (ia, ib) {
                    (Some(x), Some(y)) => (**x).same(&**y),
                    (None, None) => true,
                    _ => false,
                }
            },
            _ => false,
        }
    }

    /// The text of this cell (see `cell_text`).
    pub fn to_string(&self) -> (r: String)
        ensures
            r@ == cell_text(self@),
        decreases self,
    {
        match self {
            Cell::Empty => str_of("."),
            Cell::InputA => str_of("A"),
            Cell::InputB => str_of("B"),
            Cell::Up => str_of("^"),
            Cell::Down => str_of("v"),
            Cell::Right => str_of(">"),
            Cell::Left => str_of("<"),
            Cell::Plus => str_of("+"),
            Cell::Minus => str_of("-"),
            Cell::Mul => str_of("*"),
            Cell::Div => str_of("/"),
            Cell::Rem => str_of("%"),
            Cell::Warp(l) => {
                if crate::text::str_eq(l.as_str(), "_") {
                    str_of("@")
                } else {
                    let mut r = str_of("@");
                    r.append(l.as_str());
                    r
                }
            },
            Cell::Eq => str_of("="),
            Cell::Neq => str_of("#"),
            Cell::Submit => str_of("S"),
            Cell::Number(n) => n.to_decimal(),
            Cell::Label(name, init) => match init {
                Some(b) => {
                    let inner = (**b).to_string();
                    let mut r = name.clone();
                    r.append("[");
                    r.append(inner.as_str());
                    r.append("]");
                    r
                },
                None => name.clone(),
            },
        }
    }

    /// Reads a cell from its word (see `cell_of_text`).
    pub fn from_str(s: &str) -> (r: Result<Cell, PlanarError>)
        ensures
            match r {
                Ok(c) => cell_of_text(s@) == Ok::<Tile, PlanarError>(c@),
                Err(e) => cell_of_text(s@) == Err::<Tile, PlanarError>(e),
            },
    {
        let cs = chars_of(s);
        Cell::from_chars(&cs)
    }

    fn from_chars(cs: &Vec<char>) -> (r: Result<Cell, PlanarError>)
        ensures
            match r {
                Ok(c) => cell_of_text(cs@) == Ok::<Tile, PlanarError>(c@),
                Err(e) => cell_of_text(cs@) == Err::<Tile, PlanarError>(e),
            },
    {
        if is_word(cs, ".") {
            Ok(Cell::Empty)
        } else if is_word(cs, "A") {
            Ok(Cell::InputA)
        } else if is_word(cs, "B") {
            Ok(Cell::InputB)
        } else if is_word(cs, "^") {
            Ok(Cell::Up)
        } else if is_word(cs, "v") {
            Ok(Cell::Down)
        } else if is_word(cs, ">") {
            Ok(Cell::Right)
        } else if is_word(cs, "<") {
            Ok(Cell::Left)
        } else if is_word(cs, "+") {
            Ok(Cell::Plus)
        } else if is_word(cs, "-") {
            Ok(Cell::Minus)
        } else if is_word(cs, "*") {
            Ok(Cell::Mul)
        } else if is_word(cs, "/") {
            Ok(Cell::Div)
        } else if is_word(cs, "%") {
            Ok(Cell::Rem)
        } else if is_word(cs, "@") {
            Ok(Cell::Warp(str_of("_")))
        } else if is_word(cs, "=") {
            Ok(Cell::Eq)
        } else if is_word(cs, "#") {
            Ok(Cell::Neq)
        } else if is_word(cs, "S") {
            Ok(Cell::Submit)
        } else {
            match parse_i32(cs) {
                Some(i) => {
                    if i <= -100 || i >= 100 {
                        Err(PlanarError::InvalidNumber)
                    } else {
                        Ok(Cell::Number(BigNum::from_i64(i as i64)))
                    }
                },
                None => {
                    if cs.len() >= 1 && cs[0] != '@' {
                        match parse_label(cs) {
                            Ok((name, v)) => {
                                let init = match v {
                                    Some(c) => Some(Box::new(c)),
                                    None => None,
                                };
                                Ok(Cell::Label(name, init))
                            },
                            Err(e) => Err(e),
                        }
                    } else if cs.len() >= 2 && cs[0] == '@' {
                        let rest = slice_chars(cs, 1, cs.len());
                        assert(rest@ =~= cs@.drop_first());
                        Ok(Cell::Warp(string_of(&rest)))
                    } else {
                        Err(PlanarError::InvalidCell)
                    }
                },
            }
        }
    }
}

/// A board: rows of cells.
#[derive(Debug)]
pub struct Board(pub Vec<Vec<Cell>>);

/// The model of rows of cells.
pub open spec fn grid_of(rows: &Vec<Vec<Cell>>) -> Seq<Seq<Tile>> {
    rows@.map_values(|r: Vec<Cell>| r@.map_values(|c: Cell| c@))
}

impl View for Board {
    type V = Seq<Seq<Tile>>;

    open spec fn view(&self) -> Seq<Seq<Tile>> {
        grid_of(&self.0)
    }
}

/// A running board: the board now, the boards of earlier ticks, the inputs,
/// the submitted value, the clock, the extent of the cells used and which
/// cells were written in the current tick.
#[derive(Debug)]
pub struct State {
    pub board: Board,
    pub history: Vec<Board>,
    pub input_a: BigNum,
    pub input_b: BigNum,
    pub output: Option<BigNum>,
    pub tick: i32,
    max_tick: i32,
    min_x: i32,
    max_x: i32,
    min_y: i32,
    max_y: i32,
    written: Vec<Vec<bool>>,
    pub monotonic_tick: i32,
}

/// The model of a running board.
pub struct Sim {
    pub board: Seq<Seq<Tile>>,
    pub history: Seq<Seq<Seq<Tile>>>,
    pub a: int,
    pub b: int,
    pub output: Option<int>,
    pub tick: int,
    pub max_tick: int,
    pub min_x: int,
    pub max_x: int,
    pub min_y: int,
    pub max_y: int,
    pub written: Seq<Seq<bool>>,
    pub monotonic_tick: int,
}

impl View for State {
    type V = Sim;

    closed spec fn view(&self) -> Sim {
        Sim {
            board: self.board@,
            history: self.history@.map_values(|b: Board| b@),
            a: self.input_a@,
            b: self.input_b@,
            output: match self.output {
                Some(n) => Some(n@),
                None => None,
            },
            tick: self.tick as int,
            max_tick: self.max_tick as int,
            min_x: self.min_x as int,
            max_x: self.max_x as int,
            min_y: self.min_y as int,
            max_y: self.max_y as int,
            written: self.written@.map_values(|r: Vec<bool>| r@),
            monotonic_tick: self.monotonic_tick as int,
        }
    }
}

impl State {
    /// The rows of cells of the board.
    pub fn rows(&self) -> (r: &Vec<Vec<Cell>>)
        ensures
            grid_of(r) == self@.board,
    {
        &self.board.0
    }
}

/// `l` without one carriage return at its end.
pub open spec fn chomp_cr(l: Seq<char>) -> Seq<char> {
    if l.len() > 0 && l.last() == '\r' {
        l.drop_last()
    } else {
        l
    }
}

/// The lines of `s` as `str::lines` gives them: split at line feeds, each
/// line that a line feed ends without one carriage return before it, and no
/// empty line after a final line feed.
pub open spec fn text_lines(s: Seq<char>) -> Seq<Seq<char>> {
    let segs = segments(s);
    let n = segs.len() - 1;
    let ended = segs.take(n).map_values(|l: Seq<char>| chomp_cr(l));
    if segs[n].len() == 0 {
        ended
    } else {
        ended.push(segs[n])
    }
}

proof fn lemma_segments_nonempty(s: Seq<char>)
    ensures
        segments(s).len() >= 1,
    decreases s.len(),
{
    if s.len() > 0 {
        lemma_segments_nonempty(s.drop_last());
    }
}

/// Splits `s` into its lines (`str::lines`).
fn lines_of(s: &str) -> (r: Vec<Vec<char>>)
    ensures
        r@.map_values(|l: Vec<char>| l@) == text_lines(s@),
{
    let cs = chars_of(s);
    let mut done: Vec<Vec<char>> = Vec::new();
    let mut cur: Vec<char> = Vec::new();
    let mut i: usize = 0;
    proof {
        assert(cs@.take(0) =~= Seq::<char>::empty());
    }
    while i < cs.len()
        invariant
            cs@ == s@,
            i <= cs.len(),
            segments(cs@.take(i as int)).len() == done@.len() + 1,
            segments(cs@.take(i as int)).last() == cur@,
            forall|k: int| 0 <= k < done@.len() ==> (#[trigger] done@[k])@ == chomp_cr(segments(cs@.take(i as int))[k]),
        decreases cs.len() - i,
    {
        let c = cs[i];
        let ghost pre = cs@.take(i as int);
        let ghost segs = segments(pre);
        assert(cs@.take(i + 1).drop_last() =~= pre);
        assert(cs@.take(i + 1).last() == c);
        proof {
            lemma_segments_nonempty(pre);
        }
        if c == '\n' {
            let mut line = cur;
            if line.len() > 0 && line[line.len() - 1] == '\r' {
                line.pop();
            }
            done.push(line);
            cur = Vec::new();
            proof {
                assert forall|k: int| 0 <= k < done@.len() implies (#[trigger] done@[k])@ == chomp_cr(segments(cs@.take(i + 1))[k]) by {
                    if k < done@.len() - 1 {
                        assert(segments(cs@.take(i + 1))[k] == segs[k]);
                    } else {
                        assert(segments(cs@.take(i + 1))[k] == segs.last());
                    }
                }
            }
        } else {
            cur.push(c);
            proof {
                assert forall|k: int| 0 <= k < done@.len() implies (#[trigger] done@[k])@ == chomp_cr(segments(cs@.take(i + 1))[k]) by {
                    assert(segments(cs@.take(i + 1))[k] == segs[k]);
                }
            }
        }
        i = i + 1;
    }
    assert(cs@.take(cs.len() as int) =~= s@);
    let ghost segs = segments(s@);
    let ghost n = segs.len() - 1;
    assert(done@.map_values(|l: Vec<char>| l@) =~= segs.take(n).map_values(|l: Seq<char>| chomp_cr(l)));
    if cur.len() > 0 {
        done.push(cur);
        assert(done@.map_values(|l: Vec<char>| l@) =~= segs.take(n).map_values(|l: Seq<char>| chomp_cr(l)).push(segs[n]));
    }
    done
}

/// Twice the number of words of `s` is at most its length, plus one when it
/// ends inside a word.
proof fn lemma_words_len(s: Seq<char>)
    ensures
        2 * words(s).len() <= s.len() + if s.len() > 0 && !is_ws(s.last()) {
            1int
        } else {
            0int
        },
    decreases s.len(),
{
    if s.len() > 0 {
        lemma_words_len(s.drop_last());
        if !is_ws(s.last()) && s.len() >= 2 {
            assert(s.drop_last().last() == s[s.len() - 2]);
        }
    }
}

/// The most words on one line.
pub open spec fn col_max(ls: Seq<Seq<char>>) -> nat
    decreases ls.len(),
{
    if ls.len() == 0 {
        0
    } else {
        let m = col_max(ls.drop_last());
        let w = words(ls.last()).len();
        if w > m {
            w
        } else {
            m
        }
    }
}

/// A line that holds a row: not empty and not a comment starting with `?`.
pub open spec fn row_line(l: Seq<char>) -> bool {
    l.len() > 0 && l[0] != '?'
}

/// The cells of words, or the error of the first word that is no cell.
pub open spec fn word_cells(ws: Seq<Seq<char>>) -> Result<Seq<Tile>, PlanarError>
    decreases ws.len(),
{
    if ws.len() == 0 {
        Ok(Seq::empty())
    } else {
        match word_cells(ws.drop_last()) {
            Ok(cs) => match cell_of_text(ws.last()) {
                Ok(c) => Ok(cs.push(c)),
                Err(e) => Err(e),
            },
            Err(e) => Err(e),
        }
    }
}

/// `n` empty cells.
pub open spec fn empties(n: int) -> Seq<Tile> {
    Seq::new(n as nat, |i: int| Tile::Empty)
}

/// The rows of the row lines, each an empty cell, the line's cells and empty
/// cells up to `width`.
pub open spec fn line_rows(ls: Seq<Seq<char>>, width: int) -> Result<Seq<Seq<Tile>>, PlanarError>
    decreases ls.len(),
{
    if ls.len() == 0 {
        Ok(Seq::empty())
    } else {
        match line_rows(ls.drop_last(), width) {
            Ok(rows) => if row_line(ls.last()) {
                match word_cells(words(ls.last())) {
                    Ok(cs) => Ok(rows.push(seq![Tile::Empty] + cs + empties(width - 1 - cs.len()))),
                    Err(e) => Err(e),
                }
            } else {
                Ok(rows)
            },
            Err(e) => Err(e),
        }
    }
}

/// The board that the text `s` writes, framed by empty cells on every side,
/// or the error of its first word that is no cell.
pub open spec fn parsed_board(s: Seq<char>) -> Result<Seq<Seq<Tile>>, PlanarError> {
    let ls = text_lines(s);
    let width = col_max(ls) + 2int;
    match line_rows(ls, width) {
        Ok(rows) => Ok(seq![empties(width)] + rows + seq![empties(width)]),
        Err(e) => Err(e),
    }
}

/// The board with every input cell replaced by its number.
pub open spec fn with_inputs(g: Seq<Seq<Tile>>, a: int, b: int) -> Seq<Seq<Tile>> {
    g.map_values(
        |r: Seq<Tile>|
            r.map_values(
                |c: Tile|
                    match c {
                        Tile::InputA => Tile::Number(a),
                        Tile::InputB => Tile::Number(b),
                        _ => c,
                    },
            ),
    )
}

/// A fresh running board.
pub open spec fn fresh_sim(g: Seq<Seq<Tile>>, a: int, b: int) -> Sim {
    Sim {
        board: g,
        history: Seq::empty(),
        a,
        b,
        output: None,
        tick: 1,
        max_tick: 1,
        min_x: 715827882,
        max_x: -715827882,
        min_y: 715827882,
        max_y: -715827882,
        written: Seq::empty(),
        monotonic_tick: 0,
    }
}

fn empty_row(n: usize) -> (r: Vec<Cell>)
    ensures
        r@.map_values(|c: Cell| c@) == empties(n as int),
{
    let mut r: Vec<Cell> = Vec::new();
    while r.len() < n
        invariant
            r.len() <= n,
            r@.map_values(|c: Cell| c@) == empties(r.len() as int),
        decreases n - r.len(),
    {
        let ghost before = r@.map_values(|c: Cell| c@);
        r.push(Cell::Empty);
        assert(r@.map_values(|c: Cell| c@) =~= before.push(Tile::Empty));
        assert(before.push(Tile::Empty) =~= empties(r.len() as int));
    }
    r
}

/// The most words on one of the lines.
fn most_words(ls: &Vec<Vec<char>>) -> (m: usize)
    ensures
        m == col_max(ls@.map_values(|l: Vec<char>| l@)),
        m <= usize::MAX / 2 + 1,
{
    let ghost lv = ls@.map_values(|l: Vec<char>| l@);
    let mut m: usize = 0;
    let mut i: usize = 0;
    while i < ls.len()
        invariant
            i <= ls.len(),
            lv == ls@.map_values(|l: Vec<char>| l@),
            m == col_max(lv.take(i as int)),
            m <= usize::MAX / 2 + 1,
        decreases ls.len() - i,
    {
        let t = string_of(&ls[i]);
        let ws = split_words(t.as_str());
        proof {
            lemma_words_len(ls[i as int]@);
            assert(ws@.map_values(|w: Vec<char>| w@).len() == ws.len());
            assert(ws.len() == words(ls[i as int]@).len());
            assert(ls[i as int]@.len() == ls[i as int].len());
            assert(lv.take(i + 1).drop_last() =~= lv.take(i as int));
        }
        if ws.len() > m {
            m = ws.len();
        }
        i = i + 1;
    }
    assert(lv.take(ls.len() as int) =~= lv);
    m
}

proof fn lemma_word_cells_err(ws: Seq<Seq<char>>, k: int, e: PlanarError)
    requires
        0 <= k <= ws.len(),
        word_cells(ws.take(k)) == Err::<Seq<Tile>, PlanarError>(e),
    ensures
        word_cells(ws) == Err::<Seq<Tile>, PlanarError>(e),
    decreases ws.len() - k,
{
    if k == ws.len() {
        assert(ws.take(k) =~= ws);
    } else {
        assert(ws.take(k + 1).drop_last() =~= ws.take(k));
        lemma_word_cells_err(ws, k + 1, e);
    }
}

/// Reads the cells of the words of a line.
fn cells_of_words(ws: &Vec<Vec<char>>) -> (r: Result<Vec<Cell>, PlanarError>)
    ensures
        match r {
            Ok(cs) => word_cells(ws@.map_values(|w: Vec<char>| w@)) == Ok::<Seq<Tile>, PlanarError>(
                cs@.map_values(|c: Cell| c@),
            ),
            Err(e) => word_cells(ws@.map_values(|w: Vec<char>| w@)) == Err::<Seq<Tile>, PlanarError>(e),
        },
{
    let ghost wv = ws@.map_values(|w: Vec<char>| w@);
    let mut out: Vec<Cell> = Vec::new();
    let mut i: usize = 0;
    proof {
        assert(wv.take(0) =~= Seq::<Seq<char>>::empty());
        assert(out@.map_values(|c: Cell| c@) =~= Seq::<Tile>::empty());
    }
    while i < ws.len()
        invariant
            i <= ws.len(),
            wv == ws@.map_values(|w: Vec<char>| w@),
            word_cells(wv.take(i as int)) == Ok::<Seq<Tile>, PlanarError>(out@.map_values(|c: Cell| c@)),
        decreases ws.len() - i,
    {
        assert(wv.take(i + 1).drop_last() =~= wv.take(i as int));
        assert(wv.take(i + 1).last() == ws@[i as int]@);
        let ghost before = out@.map_values(|c: Cell| c@);
        match Cell::from_chars(&ws[i]) {
            Ok(c) => {
                out.push(c);
                assert(out@.map_values(|c: Cell| c@) =~= before.push(c@));
            },
            Err(e) => {
                proof {
                    lemma_word_cells_err(wv, i + 1, e);
                }
                return Err(e);
            },
        }
        i = i + 1;
    }
    assert(wv.take(ws.len() as int) =~= wv);
    Ok(out)
}

proof fn lemma_line_rows_err(ls: Seq<Seq<char>>, width: int, k: int, e: PlanarError)
    requires
        0 <= k <= ls.len(),
        line_rows(ls.take(k), width) == Err::<Seq<Seq<Tile>>, PlanarError>(e),
    ensures
        line_rows(ls, width) == Err::<Seq<Seq<Tile>>, PlanarError>(e),
    decreases ls.len() - k,
{
    if k == ls.len() {
        assert(ls.take(k) =~= ls);
    } else {
        assert(ls.take(k + 1).drop_last() =~= ls.take(k));
        lemma_line_rows_err(ls, width, k + 1, e);
    }
}

/// The row of a line: an empty cell, the cells and empty cells up to `width`.
fn framed_row(cells: Vec<Cell>, width: usize) -> (r: Vec<Cell>)
    requires
        cells.len() + 1 <= width,
    ensures
        r@.map_values(|c: Cell| c@) == seq![Tile::Empty] + cells@.map_values(|c: Cell| c@) + empties(
            width - 1 - cells.len(),
        ),
{
    let ghost cv = cells@.map_values(|c: Cell| c@);
    let n = cells.len();
    let mut row: Vec<Cell> = Vec::new();
    row.push(Cell::Empty);
    let mut rest = cells;
    row.append(&mut rest);
    assert(row@.map_values(|c: Cell| c@) =~= seq![Tile::Empty] + cv + empties(0));
    while row.len() < width
        invariant
            n + 1 <= row.len() <= width,
            row@.map_values(|c: Cell| c@) == seq![Tile::Empty] + cv + empties(row.len() - 1 - n),
        decreases width - row.len(),
    {
        let ghost before = row@.map_values(|c: Cell| c@);
        row.push(Cell::Empty);
        assert(row@.map_values(|c: Cell| c@) =~= before.push(Tile::Empty));
        assert(before.push(Tile::Empty) =~= seq![Tile::Empty] + cv + empties(row.len() - 1 - n));
    }
    row
}

/// Reads a board from its text (see `parsed_board`).
fn parse_board(text: &str) -> (r: Result<Vec<Vec<Cell>>, PlanarError>)
    ensures
        match r {
            Ok(rows) => parsed_board(text@) == Ok::<Seq<Seq<Tile>>, PlanarError>(grid_of(&rows)),
            Err(e) => parsed_board(text@) == Err::<Seq<Seq<Tile>>, PlanarError>(e),
        },
{
    let ls = lines_of(text);
    let ghost lv = ls@.map_values(|l: Vec<char>| l@);
    let m = most_words(&ls);
    let width = m + 2;
    let mut rows: Vec<Vec<Cell>> = Vec::new();
    rows.push(empty_row(width));
    let ghost top = empties(width as int);
    proof {
        assert(lv.take(0) =~= Seq::<Seq<char>>::empty());
        assert(grid_of(&rows) =~= seq![top] + Seq::<Seq<Tile>>::empty());
    }
    let mut i: usize = 0;
    while i < ls.len()
        invariant
            i <= ls.len(),
            lv == ls@.map_values(|l: Vec<char>| l@),
            lv == text_lines(text@),
            m == col_max(lv),
            width == m + 2,
            top == empties(width as int),
            match line_rows(lv.take(i as int), width as int) {
                Ok(body) => grid_of(&rows) == seq![top] + body,
                Err(_) => false,
            },
        decreases ls.len() - i,
    {
        assert(lv.take(i + 1).drop_last() =~= lv.take(i as int));
        assert(lv.take(i + 1).last() == ls@[i as int]@);
        let ghost body = line_rows(lv.take(i as int), width as int)->Ok_0;
        let line = &ls[i];
        if line.len() > 0 && line[0] != '?' {
            let t = string_of(line);
            let ws = split_words(t.as_str());
            match cells_of_words(&ws) {
                Ok(cells) => {
                    proof {
                        lemma_col_max_bound(lv, i as int);
                        assert(ws@.map_values(|w: Vec<char>| w@).len() == ws.len());
                        assert(word_cells(words(lv[i as int])) == Ok::<Seq<Tile>, PlanarError>(cells@.map_values(|c: Cell| c@)));
                        lemma_word_cells_len(words(lv[i as int]));
                    }
                    let ghost cv = cells@.map_values(|c: Cell| c@);
                    let row = framed_row(cells, width);
                    let ghost gb = grid_of(&rows);
                    let ghost rv = row@.map_values(|c: Cell| c@);
                    rows.push(row);
                    proof {
                        assert(grid_of(&rows) =~= gb.push(rv));
                        assert(gb.push(rv) =~= seq![top] + body.push(seq![Tile::Empty] + cv + empties(width - 1 - cv.len())));
                    }
                },
                Err(e) => {
                    proof {
                        lemma_line_rows_err(lv, width as int, i + 1, e);
                    }
                    return Err(e);
                },
            }
        }
        i = i + 1;
    }
    assert(lv.take(ls.len() as int) =~= lv);
    let ghost body = line_rows(lv, width as int)->Ok_0;
    let ghost gb = grid_of(&rows);
    let last = empty_row(width);
    let ghost rv = last@.map_values(|c: Cell| c@);
    rows.push(last);
    assert(grid_of(&rows) =~= gb.push(rv));
    assert(gb.push(rv) =~= seq![top] + body + seq![top]);
    Ok(rows)
}

/// The most words of a line bounds the words of each line.
proof fn lemma_col_max_bound(ls: Seq<Seq<char>>, i: int)
    requires
        0 <= i < ls.len(),
    ensures
        words(ls[i]).len() <= col_max(ls),
    decreases ls.len(),
{
    if i < ls.len() - 1 {
        lemma_col_max_bound(ls.drop_last(), i);
    }
}

proof fn lemma_word_cells_len(ws: Seq<Seq<char>>)
    ensures
        word_cells(ws) matches Ok(cs) ==> cs.len() == ws.len(),
    decreases ws.len(),
{
    if ws.len() > 0 {
        lemma_word_cells_len(ws.drop_last());
    }
}

fn replace_inputs(rows: &mut Vec<Vec<Cell>>, a: &BigNum, b: &BigNum)
    ensures
        grid_of(&*final(rows)) == with_inputs(grid_of(&*old(rows)), a@, b@),
{
    let ghost g = grid_of(&*rows);
    let mut y: usize = 0;
    while y < rows.len()
        invariant
            y <= rows.len(),
            g.len() == rows.len(),
            forall|k: int| y <= k < rows.len() ==> grid_of(&*rows)[k] == #[trigger] g[k],
            forall|k: int| 0 <= k < y ==> grid_of(&*rows)[k] == #[trigger] with_inputs(g, a@, b@)[k],
        decreases rows.len() - y,
    {
        let mut row: Vec<Cell> = Vec::new();
        rows.set_and_swap(y, &mut row);
        let ghost orig = row@.map_values(|c: Cell| c@);
        assert(orig == g[y as int]);
        let mut x: usize = 0;
        while x < row.len()
            invariant
                x <= row.len(),
                orig.len() == row.len(),
                forall|k: int| x <= k < row.len() ==> row@.map_values(|c: Cell| c@)[k] == #[trigger] orig[k],
                forall|k: int| 0 <= k < x ==> row@.map_values(|c: Cell| c@)[k] == #[trigger] with_inputs(g, a@, b@)[y as int][k],
                with_inputs(g, a@, b@)[y as int] == orig.map_values(
                    |c: Tile|
                        match c {
                            Tile::InputA => Tile::Number(a@),
                            Tile::InputB => Tile::Number(b@),
                            _ => c,
                        },
                ),
            decreases row.len() - x,
        {
            let is_a = match &row[x] {
                Cell::InputA => true,
                _ => false,
            };
            let is_b = match &row[x] {
                Cell::InputB => true,
                _ => false,
            };
            let ghost before = row@;
            if is_a {
                row.set(x, Cell::Number(a.copy()));
            } else if is_b {
                row.set(x, Cell::Number(b.copy()));
            }
            assert forall|k: int| 0 <= k < x + 1 implies row@.map_values(|c: Cell| c@)[k] == #[trigger] with_inputs(g, a@, b@)[y as int][k] by {
                if k < x {
                    assert(row@[k] == before[k]);
                } else {
                    assert(orig[k] == before[k]@);
                }
            }
            assert forall|k: int| x + 1 <= k < row.len() implies row@.map_values(|c: Cell| c@)[k] == #[trigger] orig[k] by {
                assert(row@[k] == before[k]);
            }
            x = x + 1;
        }
        let ghost done = row@.map_values(|c: Cell| c@);
        assert(done =~= with_inputs(g, a@, b@)[y as int]);
        let ghost before_rows = rows@;
        rows.set_and_swap(y, &mut row);
        assert forall|k: int| 0 <= k < y + 1 implies grid_of(&*rows)[k] == #[trigger] with_inputs(g, a@, b@)[k] by {
            if k < y {
                assert(rows@[k] == before_rows[k]);
            }
        }
        assert forall|k: int| y + 1 <= k < rows.len() implies grid_of(&*rows)[k] == #[trigger] g[k] by {
            assert(rows@[k] == before_rows[k]);
        }
        y = y + 1;
    }
    assert(grid_of(&*rows) =~= with_inputs(g, a@, b@));
}

impl State {
    /// Reads a board and its inputs; every `A` and `B` cell is replaced by
    /// its number at once.
    pub fn new(board: &str, a: BigNum, b: BigNum) -> (r: Result<State, PlanarError>)
        ensures
            match r {
                Ok(st) => parsed_board(board@) is Ok && st@ == fresh_sim(
                    with_inputs(parsed_board(board@)->Ok_0, a@, b@),
                    a@,
                    b@,
                ),
                Err(e) => parsed_board(board@) == Err::<Seq<Seq<Tile>>, PlanarError>(e),
            },
    {
        match parse_board(board) {
            Ok(rows) => {
                let mut rows = rows;
                replace_inputs(&mut rows, &a, &b);
                Ok(State::fresh(rows, a, b))
            },
            Err(e) => Err(e),
        }
    }

    /// Reads a board and its inputs, keeping the `A` and `B` cells.
    pub fn new_with_input_port(board: &str, a: BigNum, b: BigNum) -> (r: Result<State, PlanarError>)
        ensures
            match r {
                Ok(st) => parsed_board(board@) is Ok && st@ == fresh_sim(parsed_board(board@)->Ok_0, a@, b@),
                Err(e) => parsed_board(board@) == Err::<Seq<Seq<Tile>>, PlanarError>(e),
            },
    {
        match parse_board(board) {
            Ok(rows) => Ok(State::fresh(rows, a, b)),
            Err(e) => Err(e),
        }
    }

    fn fresh(rows: Vec<Vec<Cell>>, a: BigNum, b: BigNum) -> (st: State)
        ensures
            st@ == fresh_sim(grid_of(&rows), a@, b@),
    {
        let st = State {
            board: Board(rows),
            history: Vec::new(),
            input_a: a,
            input_b: b,
            output: None,
            tick: 1,
            max_tick: 1,
            min_x: i32::MAX / 3,
            max_x: i32::MIN / 3,
            min_y: i32::MAX / 3,
            max_y: i32::MIN / 3,
            written: Vec::new(),
            monotonic_tick: 0,
        };
        assert(st@.history =~= Seq::<Seq<Seq<Tile>>>::empty());
        assert(st@.written =~= Seq::<Seq<bool>>::empty());
        st
    }
}

/// What a cell shows: its text, or `@` for any warp in the form for
/// submission.
pub open spec fn shown(c: Tile, submit: bool) -> Seq<char> {
    if submit && c is Warp {
        "@"@
    } else {
        cell_text(c)
    }
}

/// The width of column `x` over the first `k` rows: the most bytes that a
/// cell of it shows.
pub open spec fn col_width(g: Seq<Seq<Tile>>, x: int, k: int, submit: bool) -> int
    decreases k,
{
    if k <= 0 {
        0
    } else {
        let w = col_width(g, x, k - 1, submit);
        if x < g[k - 1].len() {
            let l = byte_len(shown(g[k - 1][x], submit));
            if l > w {
                l
            } else {
                w
            }
        } else {
            w
        }
    }
}

/// `t` after as many spaces as it takes to fill `w` bytes.
pub open spec fn padded(t: Seq<char>, w: int) -> Seq<char> {
    Seq::new((w - byte_len(t)) as nat, |i: int| ' ') + t
}

/// A row written with its cells right-aligned in their columns, separated by
/// spaces, and a line feed.
pub open spec fn row_text(g: Seq<Seq<Tile>>, r: Seq<Tile>, submit: bool) -> Seq<char> {
    joined(Seq::new(r.len(), |i: int| padded(shown(r[i], submit), col_width(g, i, g.len() as int, submit))))
        + "\n"@
}

/// The first `k` rows of a board written one line each.
pub open spec fn grid_text(g: Seq<Seq<Tile>>, k: int, submit: bool) -> Seq<char>
    decreases k,
{
    if k <= 0 {
        Seq::empty()
    } else {
        grid_text(g, k - 1, submit) + row_text(g, g[k - 1], submit)
    }
}

/// The board has a first row and no row longer than it.
pub open spec fn narrow_rows(g: Seq<Seq<Tile>>) -> bool {
    g.len() > 0 && forall|i: int| 0 <= i < g.len() ==> (#[trigger] g[i]).len() <= g[0].len()
}

fn shown_string(c: &Cell, submit: bool) -> (r: String)
    ensures
        r@ == shown(c@, submit),
{
    if submit {
        if let Cell::Warp(_) = c {
            return str_of("@");
        }
    }
    c.to_string()
}

fn text_bytes(t: &String) -> (r: u128)
    ensures
        r == byte_len(t@),
{
    let cs = chars_of(t.as_str());
    byte_len_u128(&cs)
}

proof fn lemma_col_width_grows(g: Seq<Seq<Tile>>, x: int, k: int, j: int, submit: bool)
    requires
        0 <= j < k,
        x < g[j].len(),
    ensures
        byte_len(shown(g[j][x], submit)) <= col_width(g, x, k, submit),
    decreases k,
{
    if j < k - 1 {
        lemma_col_width_grows(g, x, k - 1, j, submit);
    }
}

/// The widths of the columns of the first row.
fn col_widths(g: &Vec<Vec<Cell>>, submit: bool) -> (w: Vec<u128>)
    requires
        narrow_rows(grid_of(g)),
    ensures
        w.len() == g@[0].len(),
        forall|x: int| 0 <= x < w.len() ==> #[trigger] w@[x] == col_width(grid_of(g), x, g.len() as int, submit),
{
    let ghost gv = grid_of(g);
    let n = g[0].len();
    let mut w: Vec<u128> = Vec::new();
    while w.len() < n
        invariant
            w.len() <= n,
            forall|x: int| 0 <= x < w.len() ==> #[trigger] w@[x] == 0,
        decreases n - w.len(),
    {
        w.push(0);
    }
    let mut k: usize = 0;
    while k < g.len()
        invariant
            gv == grid_of(g),
            narrow_rows(gv),
            n == gv[0].len(),
            k <= g.len(),
            w.len() == n,
            forall|x: int| 0 <= x < w.len() ==> #[trigger] w@[x] == col_width(gv, x, k as int, submit),
        decreases g.len() - k,
    {
        let row = &g[k];
        assert(gv[k as int] == row@.map_values(|c: Cell| c@));
        assert(gv[k as int].len() <= n);
        let ghost w0 = w@;
        let mut x: usize = 0;
        while x < row.len()
            invariant
                gv == grid_of(g),
                row@.map_values(|c: Cell| c@) == gv[k as int],
                row.len() <= n,
                x <= row.len(),
                w.len() == n,
                forall|y: int| 0 <= y < x ==> #[trigger] w@[y] == col_width(gv, y, k + 1, submit),
                forall|y: int| x <= y < n ==> #[trigger] w@[y] == w0[y],
                forall|y: int| 0 <= y < n ==> #[trigger] w0[y] == col_width(gv, y, k as int, submit),
            decreases row.len() - x,
        {
            let t = shown_string(&row[x], submit);
            let l = text_bytes(&t);
            assert(row@[x as int]@ == gv[k as int][x as int]);
            if l > w[x] {
                w.set(x, l);
            }
            x = x + 1;
        }
        assert forall|y: int| 0 <= y < w.len() implies #[trigger] w@[y] == col_width(gv, y, k + 1, submit) by {
            if y >= row.len() {
                assert(w@[y] == w0[y]);
            }
        }
        k = k + 1;
    }
    w
}

/// One row written with the column widths `w`.
fn row_string(g: Ghost<Seq<Seq<Tile>>>, row: &Vec<Cell>, w: &Vec<u128>, submit: bool) -> (r: String)
    requires
        row.len() <= w.len(),
        forall|x: int| 0 <= x < row.len() ==> #[trigger] w@[x] == col_width(g@, x, g@.len() as int, submit),
        forall|x: int| 0 <= x < row.len() ==> byte_len(shown(#[trigger] row@[x]@, submit)) <= w@[x],
    ensures
        r@ == row_text(g@, row@.map_values(|c: Cell| c@), submit),
{
    let ghost rv = row@.map_values(|c: Cell| c@);
    let ghost cols = Seq::new(rv.len(), |i: int| padded(shown(rv[i], submit), col_width(g@, i, g@.len() as int, submit)));
    let mut out = String::new();
    let mut x: usize = 0;
    proof {
        assert(cols.take(0) =~= Seq::<Seq<char>>::empty());
    }
    while x < row.len()
        invariant
            x <= row.len(),
            row.len() <= w.len(),
            rv == row@.map_values(|c: Cell| c@),
            cols == Seq::new(rv.len(), |i: int| padded(shown(rv[i], submit), col_width(g@, i, g@.len() as int, submit))),
            forall|y: int| 0 <= y < row.len() ==> #[trigger] w@[y] == col_width(g@, y, g@.len() as int, submit),
            forall|y: int| 0 <= y < row.len() ==> byte_len(shown(#[trigger] row@[y]@, submit)) <= w@[y],
            out@ == joined(cols.take(x as int)),
        decreases row.len() - x,
    {
        let t = shown_string(&row[x], submit);
        let l = text_bytes(&t);
        let pad = w[x] - l;
        let ghost before = out@;
        if x > 0 {
            push_char(&mut out, ' ');
        }
        let ghost mid = out@;
        let mut k: u128 = 0;
        while k < pad
            invariant
                k <= pad,
                out@ == mid + Seq::new(k as nat, |i: int| ' '),
            decreases pad - k,
        {
            push_char(&mut out, ' ');
            k = k + 1;
            assert(out@ =~= mid + Seq::new(k as nat, |i: int| ' '));
        }
        out.append(t.as_str());
        proof {
            assert(rv[x as int] == row@[x as int]@);
            assert(cols[x as int] == padded(t@, w@[x as int] as int));
            assert(cols.take(x + 1).drop_last() =~= cols.take(x as int));
            if x > 0 {
                assert(out@ =~= joined(cols.take(x as int)) + seq![' '] + cols[x as int]);
            } else {
                assert(cols.take(1) =~= seq![cols[0]]);
                assert(out@ =~= cols[0]);
            }
        }
        x = x + 1;
    }
    assert(cols.take(row.len() as int) =~= cols);
    out.append("\n");
    out
}

/// A board written one row a line (see `grid_text`).
fn grid_string(g: &Vec<Vec<Cell>>, submit: bool) -> (r: String)
    requires
        narrow_rows(grid_of(g)),
    ensures
        r@ == grid_text(grid_of(g), g.len() as int, submit),
{
    let ghost gv = grid_of(g);
    let w = col_widths(g, submit);
    let mut out = String::new();
    let mut k: usize = 0;
    while k < g.len()
        invariant
            gv == grid_of(g),
            narrow_rows(gv),
            k <= g.len(),
            w.len() == gv[0].len(),
            forall|x: int| 0 <= x < w.len() ==> #[trigger] w@[x] == col_width(gv, x, g.len() as int, submit),
            out@ == grid_text(gv, k as int, submit),
        decreases g.len() - k,
    {
        let row = &g[k];
        assert(gv[k as int] == row@.map_values(|c: Cell| c@));
        assert(gv[k as int].len() <= gv[0].len());
        proof {
            assert forall|x: int| 0 <= x < row.len() implies byte_len(shown(#[trigger] row@[x]@, submit)) <= w@[x] by {
                assert(gv[k as int][x] == row@[x]@);
                lemma_col_width_grows(gv, x, g.len() as int, k as int, submit);
            }
        }
        let line = row_string(Ghost(gv), row, &w, submit);
        out.append(line.as_str());
        k = k + 1;
    }
    out
}

impl Board {
    /// The board written one row a line, each cell right-aligned in its
    /// column (see `grid_text`).
    pub fn to_string(&self) -> (r: String)
        requires
            narrow_rows(self@),
        ensures
            r@ == grid_text(self@, self@.len() as int, false),
    {
        grid_string(&self.0, false)
    }
}

/// The board written as for submission: like `Board::to_string`, with every
/// warp shown as a bare `@`.
pub fn print_for_submit(state: &State) -> (r: String)
    requires
        narrow_rows(state@.board),
    ensures
        r@ == grid_text(state@.board, state@.board.len() as int, true),
{
    proof {
        state.lemma_board_view();
    }
    grid_string(&state.board.0, true)
}

impl State {
    proof fn lemma_board_view(&self)
        ensures
            self@.board == grid_of(&self.board.0),
            self@.board == self.board@,
    {
    }

    /// The number of columns used so far.
    pub fn used_x(&self) -> (r: i32)
        requires
            i32::MIN <= self@.max_x - self@.min_x < i32::MAX,
        ensures
            r == self@.max_x - self@.min_x + 1,
    {
        self.max_x - self.min_x + 1
    }

    /// The number of rows used so far.
    pub fn used_y(&self) -> (r: i32)
        requires
            i32::MIN <= self@.max_y - self@.min_y < i32::MAX,
        ensures
            r == self@.max_y - self@.min_y + 1,
    {
        self.max_y - self.min_y + 1
    }

    /// The score of the run: columns used times rows used times one more
    /// than the latest tick reached.
    pub fn score(&self) -> (r: i32)
        requires
            i32::MIN <= self@.max_x - self@.min_x < i32::MAX,
            i32::MIN <= self@.max_y - self@.min_y < i32::MAX,
            self@.max_tick + 1 <= i32::MAX,
            i32::MIN <= (self@.max_x - self@.min_x + 1) * (self@.max_y - self@.min_y + 1) <= i32::MAX,
            i32::MIN <= (self@.max_x - self@.min_x + 1) * (self@.max_y - self@.min_y + 1) * (self@.max_tick
                + 1) <= i32::MAX,
        ensures
            r == (self@.max_x - self@.min_x + 1) * (self@.max_y - self@.min_y + 1) * (self@.max_tick + 1),
    {
        let x = self.used_x();
        let y = self.used_y();
        let xy = x * y;
        xy * (self.max_tick + 1)
    }
}

/// `(x, y)` is on a board whose width is that of its first row.
pub open spec fn g_inside(g: Seq<Seq<Tile>>, x: int, y: int) -> bool {
    g.len() > 0 && 0 <= x < g[0].len() && 0 <= y < g.len()
}

/// The cell at `(x, y)` holds a value: a number or an input.
pub open spec fn g_readable(g: Seq<Seq<Tile>>, x: int, y: int) -> bool {
    g_inside(g, x, y) && (g[y][x] is Number || g[y][x] is InputA || g[y][x] is InputB)
}

/// The value of a cell that holds one, with the inputs `a` and `b`.
pub open spec fn value_at(g: Seq<Seq<Tile>>, a: int, b: int, x: int, y: int) -> int {
    match g[y][x] {
        Tile::Number(n) => n,
        Tile::InputA => a,
        _ => b,
    }
}

/// The cell at `(x, y)`, or an empty cell off the board.
pub open spec fn tile_or_empty(g: Seq<Seq<Tile>>, x: int, y: int) -> Tile {
    if g_inside(g, x, y) {
        g[y][x]
    } else {
        Tile::Empty
    }
}

/// The work of one tick so far: the board being written, which cells were
/// written, the submitted value, the extent of the cells used
/// (`min_x`, `max_x`, `min_y`, `max_y`) and the warps asked for as
/// `(dt, x, y, value)`.
pub struct Tick {
    pub new: Seq<Seq<Tile>>,
    pub written: Seq<Seq<bool>>,
    pub output: Option<int>,
    pub bounds: (int, int, int, int),
    pub warps: Seq<(int, int, int, int)>,
}

/// The extent widened to `(x, y)`.
pub open spec fn widened(b: (int, int, int, int), x: int, y: int) -> (int, int, int, int) {
    (
        if x < b.0 {
            x
        } else {
            b.0
        },
        if x > b.1 {
            x
        } else {
            b.1
        },
        if y < b.2 {
            y
        } else {
            b.2
        },
        if y > b.3 {
            y
        } else {
            b.3
        },
    )
}

/// The tick with its extent widened to `(x, y)`.
pub open spec fn touch(t: Tick, x: int, y: int) -> Tick {
    Tick { bounds: widened(t.bounds, x, y), ..t }
}

/// `(x, y)` is on the board and not yet written in this tick.
pub open spec fn t_writable(t: Tick, x: int, y: int) -> bool {
    g_inside(t.new, x, y) && !t.written[y][x]
}

/// Writes `v` to `(x, y)` and marks it written; a number written to the
/// submission cell becomes the output.
pub open spec fn write_tile(t: Tick, x: int, y: int, v: Tile) -> Result<Tick, PlanarError> {
    if !g_inside(t.new, x, y) {
        Err(PlanarError::InvalidWrite)
    } else {
        Ok(
            Tick {
                new: t.new.update(y, t.new[y].update(x, v)),
                written: t.written.update(y, t.written[y].update(x, true)),
                output: match v {
                    Tile::Number(n) => if t.new[y][x] is Submit {
                        Some(n)
                    } else {
                        t.output
                    },
                    _ => t.output,
                },
                bounds: widened(t.bounds, x, y),
                warps: t.warps,
            },
        )
    }
}

/// Writes `v` to `(x, y)` without marking it written.
pub open spec fn raw_tile(t: Tick, x: int, y: int, v: Tile) -> Result<Tick, PlanarError> {
    if !g_inside(t.new, x, y) {
        Err(PlanarError::InvalidWrite)
    } else {
        Ok(Tick { new: t.new.update(y, t.new[y].update(x, v)), bounds: widened(t.bounds, x, y), ..t })
    }
}

/// Empties `(x, y)` when no operator wrote it in this tick.
pub open spec fn clear_if_free(t: Tick, x: int, y: int) -> Result<Tick, PlanarError> {
    if t_writable(t, x, y) {
        raw_tile(t, x, y, Tile::Empty)
    } else {
        Ok(t)
    }
}

/// Writes `v` to `(x, y)` when it is on the board; writing twice is an
/// error.
pub open spec fn emit(t: Tick, x: int, y: int, v: Tile) -> Result<Tick, PlanarError> {
    if g_inside(t.new, x, y) {
        if !t_writable(t, x, y) {
            Err(PlanarError::WriteTwice)
        } else {
            write_tile(t, x, y, v)
        }
    } else {
        Ok(t)
    }
}

/// A move operator at `(x, y)` that carries the value behind it, at
/// `(x - dx, y - dy)`, to the cell in front of it, at `(x + dx, y + dy)`.
pub open spec fn move_tile(old: Seq<Seq<Tile>>, a: int, b: int, t0: Tick, x: int, y: int, dx: int, dy: int) -> Result<Tick, PlanarError> {
    let t = touch(t0, x, y);
    let (fx, fy, tx, ty) = (x - dx, y - dy, x + dx, y + dy);
    if !g_inside(t.new, fx, fy) || !g_inside(t.new, tx, ty) {
        Err(PlanarError::InvalidMove)
    } else if !g_readable(old, fx, fy) {
        Ok(t)
    } else if !t_writable(t, tx, ty) {
        Err(PlanarError::WriteTwice)
    } else {
        match write_tile(t, tx, ty, Tile::Number(value_at(old, a, b, fx, fy))) {
            Ok(t2) => clear_if_free(t2, fx, fy),
            Err(e) => Err(e),
        }
    }
}

/// The result of an arithmetic operator on two values.
pub open spec fn arith(op: Tile, p: int, q: int) -> Result<int, PlanarError> {
    match op {
        Tile::Plus => Ok(p + q),
        Tile::Minus => Ok(p - q),
        Tile::Mul => Ok(p * q),
        Tile::Div => if q == 0 {
            Err(PlanarError::DivisionByZero)
        } else {
            Ok(trunc_div(p, q))
        },
        Tile::Rem => if q == 0 {
            Err(PlanarError::DivisionByZero)
        } else {
            Ok(trunc_rem(p, q))
        },
        _ => Err(PlanarError::NonArithmetic),
    }
}

/// Writes `right` right of `(x, y)` and `down` below it, then empties the
/// operands left of it and above it unless something wrote them.
pub open spec fn emit_pair(t: Tick, x: int, y: int, right: Tile, down: Tile) -> Result<Tick, PlanarError> {
    match emit(t, x + 1, y, right) {
        Err(e) => Err(e),
        Ok(t1) => match emit(t1, x, y + 1, down) {
            Err(e) => Err(e),
            Ok(t2) => match clear_if_free(t2, x - 1, y) {
                Err(e) => Err(e),
                Ok(t3) => clear_if_free(t3, x, y - 1),
            },
        },
    }
}

/// An arithmetic operator at `(x, y)`: with values left of it and above it,
/// it writes the result right of it and below it and empties its operands.
pub open spec fn arith_tile(old: Seq<Seq<Tile>>, a: int, b: int, t0: Tick, x: int, y: int) -> Result<Tick, PlanarError> {
    if !g_readable(old, x - 1, y) || !g_readable(old, x, y - 1) {
        Ok(t0)
    } else {
        let t = touch(t0, x, y);
        match arith(t.new[y][x], value_at(old, a, b, x - 1, y), value_at(old, a, b, x, y - 1)) {
            Err(e) => Err(e),
            Ok(r) => emit_pair(t, x, y, Tile::Number(r), Tile::Number(r)),
        }
    }
}

/// `(x, y)` is an empty cell on the board.
pub open spec fn g_empty(g: Seq<Seq<Tile>>, x: int, y: int) -> bool {
    g_inside(g, x, y) && g[y][x] is Empty
}

/// A comparison operator at `(x, y)`: when the cells left of it and above it
/// are not empty and the comparison holds, it writes the upper one right of
/// it and the left one below it and empties both.
pub open spec fn comp_tile(old: Seq<Seq<Tile>>, t: Tick, x: int, y: int) -> Result<Tick, PlanarError> {
    if g_empty(old, x - 1, y) || g_empty(old, x, y - 1) {
        Ok(t)
    } else {
        let p = tile_or_empty(old, x - 1, y);
        let q = tile_or_empty(old, x, y - 1);
        let holds = match t.new[y][x] {
            Tile::Eq => Ok(p == q),
            Tile::Neq => Ok(p != q),
            _ => Err(PlanarError::NonComparison),
        };
        match holds {
            Err(e) => Err(e),
            Ok(false) => Ok(t),
            Ok(true) => emit_pair(t, x, y, q, p),
        }
    }
}

/// `v` fits in `i32`.
pub open spec fn fits_i32(v: int) -> bool {
    i32::MIN <= v <= i32::MAX
}

/// A warp operator at `(x, y)`: with values on all four sides it asks to
/// write the value above it, `dt` ticks back (the value below it), at
/// `(x - dx, y - dy)` (the values left and right of it).
pub open spec fn warp_tile(old: Seq<Seq<Tile>>, a: int, b: int, t: Tick, x: int, y: int) -> Result<Tick, PlanarError> {
    if !g_inside(old, x - 1, y) {
        Err(PlanarError::OutsideBoard)
    } else if !g_readable(old, x - 1, y) {
        Ok(t)
    } else if !g_inside(old, x, y - 1) {
        Err(PlanarError::OutsideBoard)
    } else if !g_readable(old, x, y - 1) {
        Ok(t)
    } else if !g_inside(old, x + 1, y) {
        Err(PlanarError::OutsideBoard)
    } else if !g_readable(old, x + 1, y) {
        Ok(t)
    } else if !g_inside(old, x, y + 1) {
        Err(PlanarError::OutsideBoard)
    } else if !g_readable(old, x, y + 1) {
        Ok(t)
    } else {
        let dx = value_at(old, a, b, x - 1, y);
        let dy = value_at(old, a, b, x + 1, y);
        let dt = value_at(old, a, b, x, y + 1);
        let v = value_at(old, a, b, x, y - 1);
        if !fits_i32(dx) || !fits_i32(dy) || !fits_i32(dt) || !fits_i32(x - dx) || !fits_i32(y - dy) {
            Err(PlanarError::WarpOutOfRange)
        } else {
            Ok(Tick { warps: t.warps.push((dt, x - dx, y - dy, v)), ..t })
        }
    }
}

/// What the cell at `(x, y)` does in a tick.
#[verifier::opaque]
pub open spec fn cell_action(old: Seq<Seq<Tile>>, a: int, b: int, t: Tick, x: int, y: int) -> Result<Tick, PlanarError> {
    match t.new[y][x] {
        Tile::InputA => Ok(Tick { new: t.new.update(y, t.new[y].update(x, Tile::Number(a))), ..t }),
        Tile::InputB => Ok(Tick { new: t.new.update(y, t.new[y].update(x, Tile::Number(b))), ..t }),
        Tile::Up => move_tile(old, a, b, t, x, y, 0, -1),
        Tile::Down => move_tile(old, a, b, t, x, y, 0, 1),
        Tile::Right => move_tile(old, a, b, t, x, y, 1, 0),
        Tile::Left => move_tile(old, a, b, t, x, y, -1, 0),
        Tile::Number(_) => Ok(t),
        Tile::Empty => Ok(t),
        Tile::Submit => Ok(t),
        Tile::Plus => arith_tile(old, a, b, t, x, y),
        Tile::Minus => arith_tile(old, a, b, t, x, y),
        Tile::Mul => arith_tile(old, a, b, t, x, y),
        Tile::Div => arith_tile(old, a, b, t, x, y),
        Tile::Rem => arith_tile(old, a, b, t, x, y),
        Tile::Eq => comp_tile(old, t, x, y),
        Tile::Neq => comp_tile(old, t, x, y),
        Tile::Warp(_) => warp_tile(old, a, b, t, x, y),
        Tile::Label(_, _) => Err(PlanarError::NotImplemented),
    }
}

/// The cells from `(x, y)` on, row by row, acting in turn on a board of `h`
/// rows of `w` cells.
pub open spec fn run_cells(old: Seq<Seq<Tile>>, a: int, b: int, t: Tick, h: int, w: int, y: int, x: int) -> Result<Tick, PlanarError>
    decreases h - y, w - x,
{
    if y >= h || x < 0 {
        Ok(t)
    } else if x >= w {
        run_cells(old, a, b, t, h, w, y + 1, 0)
    } else {
        match cell_action(old, a, b, t, x, y) {
            Ok(t2) => run_cells(old, a, b, t2, h, w, y, x + 1),
            Err(e) => Err(e),
        }
    }
}

/// `h` rows of `w` cells, none written.
pub open spec fn unwritten(h: int, w: int) -> Seq<Seq<bool>> {
    Seq::new(h as nat, |i: int| Seq::new(w as nat, |j: int| false))
}

/// Some cell of the board is a label.
pub open spec fn has_label(g: Seq<Seq<Tile>>) -> bool {
    exists|y: int, x: int| 0 <= y < g.len() && 0 <= x < g[y].len() && #[trigger] g[y][x] is Label
}

/// Applies the warps from the `i`-th on to the board of the tick warped to;
/// a cell that one warp of the tick wrote keeps only an equal value.
pub open spec fn apply_warps(t: Tick, ws: Seq<(int, int, int, int)>, i: int) -> Result<Tick, PlanarError>
    decreases ws.len() - i,
{
    if i >= ws.len() || i < 0 {
        Ok(t)
    } else {
        let (_, x, y, v) = ws[i];
        if !g_inside(t.new, x, y) {
            Err(PlanarError::InvalidWrite)
        } else if t.written[y][x] && t.new[y][x] is Number && t.new[y][x]->Number_0 != v {
            Err(PlanarError::ConflictingWarp)
        } else {
            match write_tile(t, x, y, Tile::Number(v)) {
                Ok(t2) => apply_warps(t2, ws, i + 1),
                Err(e) => Err(e),
            }
        }
    }
}

/// All warps go back by the same time.
pub open spec fn same_dt(ws: Seq<(int, int, int, int)>) -> bool {
    forall|i: int| 0 <= i < ws.len() ==> (#[trigger] ws[i]).0 == ws[0].0
}

/// The work of a tick at its start: the board as it is, nothing written.
pub open spec fn start_tick(s: Sim) -> Tick {
    Tick {
        new: s.board,
        written: unwritten(s.board.len() as int, s.board[0].len() as int),
        output: s.output,
        bounds: (s.min_x, s.max_x, s.min_y, s.max_y),
        warps: Seq::empty(),
    }
}

/// The running board after its cells acted with the work `t`, before the
/// new board replaces it: the old board in the history, the clocks one tick
/// on.
pub open spec fn ticked(s: Sim, t: Tick) -> Sim {
    let tick = s.tick + 1;
    Sim {
        board: s.board,
        history: s.history.push(s.board),
        a: s.a,
        b: s.b,
        output: t.output,
        tick,
        max_tick: if tick > s.max_tick {
            tick
        } else {
            s.max_tick
        },
        min_x: t.bounds.0,
        max_x: t.bounds.1,
        min_y: t.bounds.2,
        max_y: t.bounds.3,
        written: t.written,
        monotonic_tick: s.monotonic_tick + 1,
    }
}

/// The work of a tick taken back to the board of the history at `target`.
pub open spec fn back_tick(s: Sim, t: Tick, target: int) -> Tick {
    let back = s.history.push(s.board)[target];
    Tick { new: back, written: unwritten(back.len() as int, back[0].len() as int), ..t }
}

/// The running board after the warps back to `target` wrote their values.
pub open spec fn warped(s: Sim, t: Tick, target: int, r: Result<Tick, PlanarError>) -> Result<Sim, PlanarError> {
    match r {
        Err(e) => Err(e),
        Ok(t2) => Ok(
            Sim {
                board: t2.new,
                history: s.history.push(s.board).take(target),
                output: t2.output,
                tick: target + 1,
                min_x: t2.bounds.0,
                max_x: t2.bounds.1,
                min_y: t2.bounds.2,
                max_y: t2.bounds.3,
                written: t2.written,
                ..ticked(s, t)
            },
        ),
    }
}

/// The end of a tick whose cells acted with the work `t`: unless a value
/// was submitted, the new board replaces the old, or the warps asked for
/// take the board back in time and write their values.
pub open spec fn after_cells(s: Sim, t: Tick) -> Result<Sim, PlanarError> {
    if t.output is Some {
        Ok(ticked(s, t))
    } else if t.warps.len() == 0 {
        Ok(Sim { board: t.new, ..ticked(s, t) })
    } else if !same_dt(t.warps) {
        Err(PlanarError::InconsistentWarp)
    } else {
        let dt = t.warps[0].0;
        let n = s.history.len() + 1;
        if !(0 <= dt < n) {
            Err(PlanarError::WarpOutOfTime)
        } else {
            let target = n - dt - 1;
            warped(s, t, target, apply_warps(back_tick(s, t, target), t.warps, 0))
        }
    }
}

/// The end of a tick from the outcome of its cells.
#[verifier::opaque]
pub open spec fn result_from(s: Sim, r: Result<Tick, PlanarError>) -> Result<Sim, PlanarError> {
    match r {
        Err(e) => Err(e),
        Ok(t) => after_cells(s, t),
    }
}

/// One tick of the board: every cell acts on the board as it was (see
/// `run_cells`), then the tick ends (see `after_cells`).
pub open spec fn tick_result(s: Sim) -> Result<Sim, PlanarError> {
    if has_label(s.board) {
        Err(PlanarError::UnresolvedLabel)
    } else {
        match run_cells(s.board, s.a, s.b, start_tick(s), s.board.len() as int, s.board[0].len() as int, 0, 0) {
            Err(e) => Err(e),
            Ok(t) => after_cells(s, t),
        }
    }
}

/// The running board with its extent widened to `(x, y)`.
pub open spec fn widen_sim(s: Sim, x: int, y: int) -> Sim {
    let b = widened((s.min_x, s.max_x, s.min_y, s.max_y), x, y);
    Sim { min_x: b.0, max_x: b.1, min_y: b.2, max_y: b.3, ..s }
}

/// The rows of `g` number `h` and all hold `w` cells.
pub open spec fn grid_shape(g: Seq<Seq<Tile>>, h: int, w: int) -> bool {
    g.len() == h && forall|i: int| 0 <= i < h ==> (#[trigger] g[i]).len() == w
}

/// The rows of `f` number `h` and all hold `w` flags.
pub open spec fn flags_shape(f: Seq<Seq<bool>>, h: int, w: int) -> bool {
    f.len() == h && forall|i: int| 0 <= i < h ==> (#[trigger] f[i]).len() == w
}

/// The tick of a running board `s` with the board being written `new` and
/// the warps asked for `ws`.
pub open spec fn tick_at(s: Sim, new: Seq<Seq<Tile>>, ws: Seq<(int, int, int, int)>) -> Tick {
    Tick { new, written: s.written, output: s.output, bounds: (s.min_x, s.max_x, s.min_y, s.max_y), warps: ws }
}

/// What a tick leaves alone: the board, the history, the inputs and the
/// clock.
pub open spec fn same_frame(s1: Sim, s2: Sim) -> bool {
    &&& s1.board == s2.board
    &&& s1.history == s2.history
    &&& s1.a == s2.a
    &&& s1.b == s2.b
    &&& s1.tick == s2.tick
    &&& s1.max_tick == s2.max_tick
    &&& s1.monotonic_tick == s2.monotonic_tick
}

/// The model of the warps asked for.
pub open spec fn warps_of(ws: &Vec<(i32, i32, i32, BigNum)>) -> Seq<(int, int, int, int)> {
    ws@.map_values(|r: (i32, i32, i32, BigNum)| (r.0 as int, r.1 as int, r.2 as int, r.3@))
}

/// A board of `h` rows of `w` cells whose positions fit in `i32`.
pub open spec fn sized(g: Seq<Seq<Tile>>, h: int, w: int) -> bool {
    grid_shape(g, h, w) && 0 < h < i32::MAX && 0 < w < i32::MAX
}

proof fn lemma_row_len(board: &Vec<Vec<Cell>>, i: int)
    requires
        0 <= i < board.len(),
    ensures
        grid_of(board)[i].len() == board@[i].len(),
        grid_of(board).len() == board.len(),
{
    assert(grid_of(board)[i] == board@[i]@.map_values(|c: Cell| c@));
}

fn set_cell(board: &mut Vec<Vec<Cell>>, x: usize, y: usize, v: Cell)
    requires
        y < old(board).len(),
        x < old(board)@[y as int].len(),
    ensures
        grid_of(&*final(board)) == grid_of(&*old(board)).update(
            y as int,
            grid_of(&*old(board))[y as int].update(x as int, v@),
        ),
{
    let ghost g = grid_of(&*board);
    let mut row: Vec<Cell> = Vec::new();
    board.set_and_swap(y, &mut row);
    assert(row@.map_values(|c: Cell| c@) == g[y as int]);
    let ghost vv = v@;
    row.set(x, v);
    let ghost nr = row@.map_values(|c: Cell| c@);
    assert(nr =~= g[y as int].update(x as int, vv));
    board.set_and_swap(y, &mut row);
    assert(grid_of(&*board) =~= g.update(y as int, nr));
}

pub(crate) fn set_flag(flags: &mut Vec<Vec<bool>>, x: usize, y: usize)
    requires
        y < old(flags).len(),
        x < old(flags)@[y as int].len(),
    ensures
        final(flags)@.map_values(|r: Vec<bool>| r@) == old(flags)@.map_values(|r: Vec<bool>| r@).update(
            y as int,
            old(flags)@.map_values(|r: Vec<bool>| r@)[y as int].update(x as int, true),
        ),
{
    let ghost f = flags@.map_values(|r: Vec<bool>| r@);
    let mut row: Vec<bool> = Vec::new();
    flags.set_and_swap(y, &mut row);
    assert(row@ == f[y as int]);
    row.set(x, true);
    let ghost nr = row@;
    flags.set_and_swap(y, &mut row);
    assert(flags@.map_values(|r: Vec<bool>| r@) =~= f.update(y as int, nr));
}

/// Whether `(x, y)` is on the board (see `g_inside`).
pub(crate) fn inside(board: &Vec<Vec<Cell>>, x: i32, y: i32) -> (r: bool)
    requires
        board.len() > 0,
        board.len() < i32::MAX,
        board@[0].len() < i32::MAX,
    ensures
        r == g_inside(grid_of(board), x as int, y as int),
{
    x >= 0 && x < board[0].len() as i32 && y >= 0 && y < board.len() as i32
}

/// Whether the cell at `(x, y)` holds a value (see `g_readable`).
fn readable(board: &Vec<Vec<Cell>>, x: i32, y: i32) -> (r: bool)
    requires
        sized(grid_of(board), board.len() as int, board@[0].len() as int),
    ensures
        r == g_readable(grid_of(board), x as int, y as int),
{
    if !inside(board, x, y) {
        return false;
    }
    assert(grid_of(board)[y as int] == board@[y as int]@.map_values(|c: Cell| c@));
    match &board[y as usize][x as usize] {
        Cell::Number(_) => true,
        Cell::InputA => true,
        Cell::InputB => true,
        _ => false,
    }
}

/// Whether the cell at `(x, y)` is an empty cell on the board.
fn is_cell_empty(board: &Vec<Vec<Cell>>, x: i32, y: i32) -> (r: bool)
    requires
        sized(grid_of(board), board.len() as int, board@[0].len() as int),
    ensures
        r == g_empty(grid_of(board), x as int, y as int),
{
    if !inside(board, x, y) {
        return false;
    }
    assert(grid_of(board)[y as int] == board@[y as int]@.map_values(|c: Cell| c@));
    match &board[y as usize][x as usize] {
        Cell::Empty => true,
        _ => false,
    }
}

/// A copy of the cell at `(x, y)`, or an empty cell off the board.
fn get_cell(board: &Vec<Vec<Cell>>, x: i32, y: i32) -> (r: Cell)
    requires
        sized(grid_of(board), board.len() as int, board@[0].len() as int),
    ensures
        r@ == tile_or_empty(grid_of(board), x as int, y as int),
{
    if !inside(board, x, y) {
        return Cell::Empty;
    }
    assert(grid_of(board)[y as int] == board@[y as int]@.map_values(|c: Cell| c@));
    board[y as usize][x as usize].copy()
}

impl State {
    /// The board, its inputs and the flags of the tick fit together.
    pub closed spec fn ticking(&self, new: Seq<Seq<Tile>>) -> bool {
        let h = self@.board.len() as int;
        &&& h > 0
        &&& sized(self@.board, h, self@.board[0].len() as int)
        &&& grid_shape(new, h, self@.board[0].len() as int)
        &&& flags_shape(self@.written, h, self@.board[0].len() as int)
    }

    proof fn lemma_views(&self)
        ensures
            self@.board == grid_of(&self.board.0),
            self@.written == self.written@.map_values(|r: Vec<bool>| r@),
            self@.a == self.input_a@,
            self@.b == self.input_b@,
            self@.min_x == self.min_x,
            self@.max_x == self.max_x,
            self@.min_y == self.min_y,
            self@.max_y == self.max_y,
            self@.output == match self.output {
                Some(n) => Some(n@),
                None => None::<int>,
            },
    {
    }

    /// The value at `(x, y)`, when the cell holds one.
    fn get_number(&self, x: i32, y: i32) -> (r: Option<BigNum>)
        requires
            sized(self@.board, self@.board.len() as int, self@.board[0].len() as int),
        ensures
            r is Some <==> g_readable(self@.board, x as int, y as int),
            r matches Some(n) ==> n@ == value_at(self@.board, self@.a, self@.b, x as int, y as int),
    {
        proof {
            self.lemma_views();
        }
        if !readable(&self.board.0, x, y) {
            return None;
        }
        assert(self@.board[y as int] == self.board.0@[y as int]@.map_values(|c: Cell| c@));
        match &self.board.0[y as usize][x as usize] {
            Cell::Number(i) => Some(i.copy()),
            Cell::InputA => Some(self.input_a.copy()),
            Cell::InputB => Some(self.input_b.copy()),
            _ => None,
        }
    }

    /// Widens the extent of the cells used to `(x, y)`.
    fn update_min_max(&mut self, x: i32, y: i32)
        ensures
            final(self)@ == widen_sim(old(self)@, x as int, y as int),
    {
        if x < self.min_x {
            self.min_x = x;
        }
        if x > self.max_x {
            self.max_x = x;
        }
        if y < self.min_y {
            self.min_y = y;
        }
        if y > self.max_y {
            self.max_y = y;
        }
    }

    /// Whether `(x, y)` is on the board and not yet written in this tick.
    fn writable(&self, board: &Vec<Vec<Cell>>, x: i32, y: i32) -> (r: bool)
        requires
            self.ticking(grid_of(board)),
        ensures
            r == t_writable(tick_at(self@, grid_of(board), Seq::empty()), x as int, y as int),
    {
        proof {
            self.lemma_views();
            lemma_row_len(board, 0);
        }
        if !inside(board, x, y) {
            return false;
        }
        assert(self@.written[y as int] == self.written@[y as int]@);
        !self.written[y as usize][x as usize]
    }

    /// Writes `v` to `(x, y)` and marks it written (see `write_tile`).
    fn write_to(&mut self, board: &mut Vec<Vec<Cell>>, x: i32, y: i32, v: Cell, ws: Ghost<Seq<(int, int, int, int)>>) -> (r: Result<(), PlanarError>)
        requires
            old(self).ticking(grid_of(&*old(board))),
        ensures
            same_frame(old(self)@, final(self)@),
            final(self).ticking(grid_of(&*final(board))),
            match r {
                Ok(()) => write_tile(tick_at(old(self)@, grid_of(&*old(board)), ws@), x as int, y as int, v@)
                    == Ok::<Tick, PlanarError>(tick_at(final(self)@, grid_of(&*final(board)), ws@)),
                Err(e) => write_tile(tick_at(old(self)@, grid_of(&*old(board)), ws@), x as int, y as int, v@)
                    == Err::<Tick, PlanarError>(e),
            },
    {
        proof {
            self.lemma_views();
            lemma_row_len(board, 0);
        }
        if !inside(board, x, y) {
            return Err(PlanarError::InvalidWrite);
        }
        let ux = x as usize;
        let uy = y as usize;
        let ghost g = grid_of(&*board);
        assert(g[y as int] == board@[y as int]@.map_values(|c: Cell| c@));
        let is_submit = match &board[uy][ux] {
            Cell::Submit => true,
            _ => false,
        };
        if is_submit {
            if let Cell::Number(i) = &v {
                self.output = Some(i.copy());
            }
        }
        set_cell(board, ux, uy, v);
        assert(self.written@[y as int]@.len() == g[0].len());
        set_flag(&mut self.written, ux, uy);
        self.update_min_max(x, y);
        proof {
            self.lemma_views();
            assert(grid_of(&*board)[y as int].len() == g[y as int].len());
        }
        Ok(())
    }

    /// Writes `v` to `(x, y)` without marking it written (see `raw_tile`).
    fn raw_write(&mut self, board: &mut Vec<Vec<Cell>>, x: i32, y: i32, v: Cell, ws: Ghost<Seq<(int, int, int, int)>>) -> (r: Result<(), PlanarError>)
        requires
            old(self).ticking(grid_of(&*old(board))),
        ensures
            same_frame(old(self)@, final(self)@),
            final(self).ticking(grid_of(&*final(board))),
            match r {
                Ok(()) => raw_tile(tick_at(old(self)@, grid_of(&*old(board)), ws@), x as int, y as int, v@)
                    == Ok::<Tick, PlanarError>(tick_at(final(self)@, grid_of(&*final(board)), ws@)),
                Err(e) => raw_tile(tick_at(old(self)@, grid_of(&*old(board)), ws@), x as int, y as int, v@)
                    == Err::<Tick, PlanarError>(e),
            },
    {
        proof {
            self.lemma_views();
            lemma_row_len(board, 0);
        }
        if !inside(board, x, y) {
            return Err(PlanarError::InvalidWrite);
        }
        let ghost g = grid_of(&*board);
        set_cell(board, x as usize, y as usize, v);
        self.update_min_max(x, y);
        proof {
            self.lemma_views();
        }
        Ok(())
    }
}

impl State {
    /// Writes `v` to `(x, y)` when it is on the board (see `emit`).
    fn emit(&mut self, board: &mut Vec<Vec<Cell>>, x: i32, y: i32, v: Cell, ws: Ghost<Seq<(int, int, int, int)>>) -> (r: Result<(), PlanarError>)
        requires
            old(self).ticking(grid_of(&*old(board))),
        ensures
            same_frame(old(self)@, final(self)@),
            final(self).ticking(grid_of(&*final(board))),
            match r {
                Ok(()) => emit(tick_at(old(self)@, grid_of(&*old(board)), ws@), x as int, y as int, v@)
                    == Ok::<Tick, PlanarError>(tick_at(final(self)@, grid_of(&*final(board)), ws@)),
                Err(e) => emit(tick_at(old(self)@, grid_of(&*old(board)), ws@), x as int, y as int, v@)
                    == Err::<Tick, PlanarError>(e),
            },
    {
        proof {
            self.lemma_views();
            lemma_row_len(board, 0);
        }
        if inside(board, x, y) {
            if !self.writable(board, x, y) {
                return Err(PlanarError::WriteTwice);
            }
            self.write_to(board, x, y, v, ws)
        } else {
            Ok(())
        }
    }

    /// Empties `(x, y)` when no operator wrote it in this tick (see
    /// `clear_if_free`).
    fn clear_if_free(&mut self, board: &mut Vec<Vec<Cell>>, x: i32, y: i32, ws: Ghost<Seq<(int, int, int, int)>>) -> (r: Result<(), PlanarError>)
        requires
            old(self).ticking(grid_of(&*old(board))),
        ensures
            same_frame(old(self)@, final(self)@),
            final(self).ticking(grid_of(&*final(board))),
            match r {
                Ok(()) => clear_if_free(tick_at(old(self)@, grid_of(&*old(board)), ws@), x as int, y as int)
                    == Ok::<Tick, PlanarError>(tick_at(final(self)@, grid_of(&*final(board)), ws@)),
                Err(e) => clear_if_free(tick_at(old(self)@, grid_of(&*old(board)), ws@), x as int, y as int)
                    == Err::<Tick, PlanarError>(e),
            },
    {
        if self.writable(board, x, y) {
            self.raw_write(board, x, y, Cell::Empty, ws)
        } else {
            Ok(())
        }
    }

    /// Writes two results and empties the operands (see `emit_pair`).
    fn emit_pair(&mut self, board: &mut Vec<Vec<Cell>>, x: i32, y: i32, right: Cell, down: Cell, ws: Ghost<Seq<(int, int, int, int)>>) -> (r: Result<(), PlanarError>)
        requires
            old(self).ticking(grid_of(&*old(board))),
            0 <= x < i32::MAX,
            0 <= y < i32::MAX,
        ensures
            same_frame(old(self)@, final(self)@),
            final(self).ticking(grid_of(&*final(board))),
            match r {
                Ok(()) => emit_pair(tick_at(old(self)@, grid_of(&*old(board)), ws@), x as int, y as int, right@, down@)
                    == Ok::<Tick, PlanarError>(tick_at(final(self)@, grid_of(&*final(board)), ws@)),
                Err(e) => emit_pair(tick_at(old(self)@, grid_of(&*old(board)), ws@), x as int, y as int, right@, down@)
                    == Err::<Tick, PlanarError>(e),
            },
    {
        match self.emit(board, x + 1, y, right, ws) {
            Ok(()) => {},
            Err(e) => {
                return Err(e);
            },
        }
        match self.emit(board, x, y + 1, down, ws) {
            Ok(()) => {},
            Err(e) => {
                return Err(e);
            },
        }
        match self.clear_if_free(board, x - 1, y, ws) {
            Ok(()) => {},
            Err(e) => {
                return Err(e);
            },
        }
        self.clear_if_free(board, x, y - 1, ws)
    }

    /// A move operator at `(x, y)` (see `move_tile`).
    fn move_v(&mut self, board: &mut Vec<Vec<Cell>>, x: usize, y: usize, dx: i32, dy: i32, ws: Ghost<Seq<(int, int, int, int)>>) -> (r: Result<(), PlanarError>)
        requires
            old(self).ticking(grid_of(&*old(board))),
            y < old(self)@.board.len(),
            x < old(self)@.board[0].len(),
            -1 <= dx <= 1,
            -1 <= dy <= 1,
        ensures
            same_frame(old(self)@, final(self)@),
            final(self).ticking(grid_of(&*final(board))),
            match r {
                Ok(()) => move_tile(old(self)@.board, old(self)@.a, old(self)@.b, tick_at(old(self)@, grid_of(&*old(board)), ws@), x as int, y as int, dx as int, dy as int)
                    == Ok::<Tick, PlanarError>(tick_at(final(self)@, grid_of(&*final(board)), ws@)),
                Err(e) => move_tile(old(self)@.board, old(self)@.a, old(self)@.b, tick_at(old(self)@, grid_of(&*old(board)), ws@), x as int, y as int, dx as int, dy as int)
                    == Err::<Tick, PlanarError>(e),
            },
    {
        proof {
            self.lemma_views();
            lemma_row_len(board, 0);
            lemma_row_len(&self.board.0, 0);
        }
        let xi = x as i32;
        let yi = y as i32;
        self.update_min_max(xi, yi);
        proof {
            self.lemma_views();
        }
        let from_x = xi - dx;
        let from_y = yi - dy;
        let to_x = xi + dx;
        let to_y = yi + dy;
        if !inside(board, from_x, from_y) || !inside(board, to_x, to_y) {
            return Err(PlanarError::InvalidMove);
        }
        if !readable(&self.board.0, from_x, from_y) {
            return Ok(());
        }
        if !self.writable(board, to_x, to_y) {
            return Err(PlanarError::WriteTwice);
        }
        match self.get_number(from_x, from_y) {
            Some(i) => {
                match self.write_to(board, to_x, to_y, Cell::Number(i), ws) {
                    Ok(()) => {},
                    Err(e) => {
                        return Err(e);
                    },
                }
                self.clear_if_free(board, from_x, from_y, ws)
            },
            None => Err(PlanarError::NotImplemented),
        }
    }

    /// An arithmetic operator at `(x, y)` (see `arith_tile`).
    fn binop_arith(&mut self, board: &mut Vec<Vec<Cell>>, x: usize, y: usize, ws: Ghost<Seq<(int, int, int, int)>>) -> (r: Result<(), PlanarError>)
        requires
            old(self).ticking(grid_of(&*old(board))),
            y < old(self)@.board.len(),
            x < old(self)@.board[0].len(),
        ensures
            same_frame(old(self)@, final(self)@),
            final(self).ticking(grid_of(&*final(board))),
            match r {
                Ok(()) => arith_tile(old(self)@.board, old(self)@.a, old(self)@.b, tick_at(old(self)@, grid_of(&*old(board)), ws@), x as int, y as int)
                    == Ok::<Tick, PlanarError>(tick_at(final(self)@, grid_of(&*final(board)), ws@)),
                Err(e) => arith_tile(old(self)@.board, old(self)@.a, old(self)@.b, tick_at(old(self)@, grid_of(&*old(board)), ws@), x as int, y as int)
                    == Err::<Tick, PlanarError>(e),
            },
    {
        proof {
            self.lemma_views();
            lemma_row_len(board, 0);
            lemma_row_len(&self.board.0, 0);
        }
        let xi = x as i32;
        let yi = y as i32;
        if !readable(&self.board.0, xi - 1, yi) || !readable(&self.board.0, xi, yi - 1) {
            return Ok(());
        }
        self.update_min_max(xi, yi);
        proof {
            self.lemma_views();
        }
        let op1 = match self.get_number(xi - 1, yi) {
            Some(v) => v,
            None => {
                return Err(PlanarError::NotImplemented);
            },
        };
        let op2 = match self.get_number(xi, yi - 1) {
            Some(v) => v,
            None => {
                return Err(PlanarError::NotImplemented);
            },
        };
        proof {
            lemma_row_len(board, y as int);
            assert(grid_of(&*board)[y as int] == board@[y as int]@.map_values(|c: Cell| c@));
        }
        let zero = BigNum::zero();
        let result = match &board[y][x] {
            Cell::Plus => op1.add(&op2),
            Cell::Minus => op1.sub(&op2),
            Cell::Mul => op1.mul(&op2),
            Cell::Div => {
                if op2.eq_value(&zero) {
                    return Err(PlanarError::DivisionByZero);
                }
                op1.div(&op2)
            },
            Cell::Rem => {
                if op2.eq_value(&zero) {
                    return Err(PlanarError::DivisionByZero);
                }
                op1.rem(&op2)
            },
            _ => {
                return Err(PlanarError::NonArithmetic);
            },
        };
        let r2 = result.copy();
        self.emit_pair(board, xi, yi, Cell::Number(result), Cell::Number(r2), ws)
    }

    /// A comparison operator at `(x, y)` (see `comp_tile`).
    fn binop_comp(&mut self, board: &mut Vec<Vec<Cell>>, x: usize, y: usize, ws: Ghost<Seq<(int, int, int, int)>>) -> (r: Result<(), PlanarError>)
        requires
            old(self).ticking(grid_of(&*old(board))),
            y < old(self)@.board.len(),
            x < old(self)@.board[0].len(),
        ensures
            same_frame(old(self)@, final(self)@),
            final(self).ticking(grid_of(&*final(board))),
            match r {
                Ok(()) => comp_tile(old(self)@.board, tick_at(old(self)@, grid_of(&*old(board)), ws@), x as int, y as int)
                    == Ok::<Tick, PlanarError>(tick_at(final(self)@, grid_of(&*final(board)), ws@)),
                Err(e) => comp_tile(old(self)@.board, tick_at(old(self)@, grid_of(&*old(board)), ws@), x as int, y as int)
                    == Err::<Tick, PlanarError>(e),
            },
    {
        proof {
            self.lemma_views();
            lemma_row_len(board, 0);
            lemma_row_len(&self.board.0, 0);
        }
        let xi = x as i32;
        let yi = y as i32;
        if is_cell_empty(&self.board.0, xi - 1, yi) || is_cell_empty(&self.board.0, xi, yi - 1) {
            return Ok(());
        }
        let op1 = get_cell(&self.board.0, xi - 1, yi);
        let op2 = get_cell(&self.board.0, xi, yi - 1);
        proof {
            lemma_row_len(board, y as int);
            assert(grid_of(&*board)[y as int] == board@[y as int]@.map_values(|c: Cell| c@));
        }
        let res = match &board[y][x] {
            Cell::Eq => op1.same(&op2),
            Cell::Neq => !op1.same(&op2),
            _ => {
                return Err(PlanarError::NonComparison);
            },
        };
        if !res {
            return Ok(());
        }
        self.emit_pair(board, xi, yi, op2, op1, ws)
    }

    /// A warp operator at `(x, y)` (see `warp_tile`).
    fn warp(&self, x: usize, y: usize, warp_requests: &mut Vec<(i32, i32, i32, BigNum)>, new: Ghost<Seq<Seq<Tile>>>) -> (r: Result<(), PlanarError>)
        requires
            self.ticking(new@),
            y < self@.board.len(),
            x < self@.board[0].len(),
        ensures
            match r {
                Ok(()) => warp_tile(self@.board, self@.a, self@.b, tick_at(self@, new@, warps_of(&*old(warp_requests))), x as int, y as int)
                    == Ok::<Tick, PlanarError>(tick_at(self@, new@, warps_of(&*final(warp_requests)))),
                Err(e) => warp_tile(self@.board, self@.a, self@.b, tick_at(self@, new@, warps_of(&*old(warp_requests))), x as int, y as int)
                    == Err::<Tick, PlanarError>(e),
            },
    {
        proof {
            self.lemma_views();
            lemma_row_len(&self.board.0, 0);
        }
        let b = &self.board.0;
        let xi = x as i32;
        let yi = y as i32;
        if !inside(b, xi - 1, yi) {
            return Err(PlanarError::OutsideBoard);
        }
        if !readable(b, xi - 1, yi) {
            return Ok(());
        }
        if !inside(b, xi, yi - 1) {
            return Err(PlanarError::OutsideBoard);
        }
        if !readable(b, xi, yi - 1) {
            return Ok(());
        }
        if !inside(b, xi + 1, yi) {
            return Err(PlanarError::OutsideBoard);
        }
        if !readable(b, xi + 1, yi) {
            return Ok(());
        }
        if !inside(b, xi, yi + 1) {
            return Err(PlanarError::OutsideBoard);
        }
        if !readable(b, xi, yi + 1) {
            return Ok(());
        }
        let (nx, ny, nt, nv) = match (
            self.get_number(xi - 1, yi),
            self.get_number(xi + 1, yi),
            self.get_number(xi, yi + 1),
            self.get_number(xi, yi - 1),
        ) {
            (Some(p), Some(q), Some(r), Some(v)) => (p, q, r, v),
            _ => {
                return Err(PlanarError::NotImplemented);
            },
        };
        let dx = match nx.to_i64() {
            Some(d) => d,
            None => {
                return Err(PlanarError::WarpOutOfRange);
            },
        };
        let dy = match ny.to_i64() {
            Some(d) => d,
            None => {
                return Err(PlanarError::WarpOutOfRange);
            },
        };
        let dt = match nt.to_i64() {
            Some(d) => d,
            None => {
                return Err(PlanarError::WarpOutOfRange);
            },
        };
        if dx < i32::MIN as i64 || dx > i32::MAX as i64 || dy < i32::MIN as i64 || dy > i32::MAX as i64
            || dt < i32::MIN as i64 || dt > i32::MAX as i64 {
            return Err(PlanarError::WarpOutOfRange);
        }
        let tx = xi as i64 - dx;
        let ty = yi as i64 - dy;
        if tx < i32::MIN as i64 || tx > i32::MAX as i64 || ty < i32::MIN as i64 || ty > i32::MAX as i64 {
            return Err(PlanarError::WarpOutOfRange);
        }
        let ghost before = warps_of(&*warp_requests);
        warp_requests.push((dt as i32, tx as i32, ty as i32, nv));
        assert(warps_of(&*warp_requests) =~= before.push((dt as int, tx as int, ty as int, warp_requests@.last().3@)));
        Ok(())
    }
}

/// The board has a first row, its positions fit in `i32` and the boards of
/// the history have its shape.
pub open spec fn well_shaped(s: Sim) -> bool {
    &&& s.board.len() > 0
    &&& sized(s.board, s.board.len() as int, s.board[0].len() as int)
    &&& forall|i: int|
        0 <= i < s.history.len() ==> grid_shape(#[trigger] s.history[i], s.board.len() as int, s.board[0].len() as int)
}

/// The board can tick: it is well shaped and the clocks and the history
/// can grow by one.
pub open spec fn steppable(s: Sim) -> bool {
    &&& well_shaped(s)
    &&& s.history.len() + 1 < i32::MAX
    &&& s.tick + 1 < i32::MAX
    &&& s.monotonic_tick < i32::MAX
}

/// A copy of rows of cells.
fn clone_grid(g: &Vec<Vec<Cell>>) -> (r: Vec<Vec<Cell>>)
    ensures
        grid_of(&r) == grid_of(g),
{
    let mut r: Vec<Vec<Cell>> = Vec::new();
    let mut y: usize = 0;
    while y < g.len()
        invariant
            y <= g.len(),
            grid_of(&r) == grid_of(g).take(y as int),
        decreases g.len() - y,
    {
        let row = &g[y];
        let mut c: Vec<Cell> = Vec::new();
        let mut x: usize = 0;
        while x < row.len()
            invariant
                x <= row.len(),
                c@.map_values(|t: Cell| t@) == row@.map_values(|t: Cell| t@).take(x as int),
            decreases row.len() - x,
        {
            let ghost before = c@.map_values(|t: Cell| t@);
            let cell = row[x].copy();
            c.push(cell);
            assert(c@.map_values(|t: Cell| t@) =~= before.push(cell@));
            assert(row@.map_values(|t: Cell| t@).take(x + 1) =~= row@.map_values(|t: Cell| t@).take(x as int).push(row@[x as int]@));
            x = x + 1;
        }
        assert(row@.map_values(|t: Cell| t@).take(row.len() as int) =~= row@.map_values(|t: Cell| t@));
        let ghost before = grid_of(&r);
        let ghost cv = c@.map_values(|t: Cell| t@);
        r.push(c);
        assert(grid_of(&r) =~= before.push(cv));
        assert(grid_of(g).take(y + 1) =~= grid_of(g).take(y as int).push(grid_of(g)[y as int]));
        y = y + 1;
    }
    assert(grid_of(g).take(g.len() as int) =~= grid_of(g));
    r
}

/// `h` rows of `w` flags, all false.
fn unwritten_vec(h: usize, w: usize) -> (r: Vec<Vec<bool>>)
    ensures
        r@.map_values(|f: Vec<bool>| f@) == unwritten(h as int, w as int),
{
    let mut r: Vec<Vec<bool>> = Vec::new();
    while r.len() < h
        invariant
            r.len() <= h,
            forall|i: int| 0 <= i < r.len() ==> (#[trigger] r@[i])@ == Seq::new(w as nat, |j: int| false),
        decreases h - r.len(),
    {
        let mut row: Vec<bool> = Vec::new();
        while row.len() < w
            invariant
                row.len() <= w,
                forall|j: int| 0 <= j < row.len() ==> row@[j] == false,
            decreases w - row.len(),
        {
            row.push(false);
        }
        assert(row@ =~= Seq::new(w as nat, |j: int| false));
        r.push(row);
    }
    assert(r@.map_values(|f: Vec<bool>| f@) =~= unwritten(h as int, w as int));
    r
}

/// Puts the number `v` at `(x, y)`.
fn put_value(board: &mut Vec<Vec<Cell>>, x: usize, y: usize, v: BigNum)
    requires
        y < old(board).len(),
        x < old(board)@[y as int].len(),
    ensures
        grid_of(&*final(board)) == grid_of(&*old(board)).update(
            y as int,
            grid_of(&*old(board))[y as int].update(x as int, Tile::Number(v@)),
        ),
        final(board).len() == old(board).len(),
        forall|i: int| 0 <= i < final(board).len() ==> (#[trigger] final(board)@[i]).len() == old(board)@[i].len(),
{
    let ghost g = grid_of(&*board);
    set_cell(board, x, y, Cell::Number(v));
    assert(grid_of(&*board).len() == board@.len());
    assert forall|i: int| 0 <= i < board.len() implies (#[trigger] board@[i]).len() == old(board)@[i].len() by {
        lemma_row_len(board, i);
        lemma_row_len(old(board), i);
    }
}

/// What a cell does, by kind.
enum Act {
    PutA,
    PutB,
    Move(i32, i32),
    Idle,
    Arith,
    Comp,
    Warp,
    Stuck,
}

impl State {
    /// The cell at `(x, y)` of the board being written acts (see
    /// `cell_action`).
    #[verifier::rlimit(50)]
    fn step_cell(&mut self, board: &mut Vec<Vec<Cell>>, x: usize, y: usize, warps: &mut Vec<(i32, i32, i32, BigNum)>) -> (r: Result<(), PlanarError>)
        requires
            old(self).ticking(grid_of(&*old(board))),
            y < old(self)@.board.len(),
            x < old(self)@.board[0].len(),
        ensures
            same_frame(old(self)@, final(self)@),
            final(self).ticking(grid_of(&*final(board))),
            match r {
                Ok(()) => cell_action(old(self)@.board, old(self)@.a, old(self)@.b, tick_at(old(self)@, grid_of(&*old(board)), warps_of(&*old(warps))), x as int, y as int)
                    == Ok::<Tick, PlanarError>(tick_at(final(self)@, grid_of(&*final(board)), warps_of(&*final(warps)))),
                Err(e) => cell_action(old(self)@.board, old(self)@.a, old(self)@.b, tick_at(old(self)@, grid_of(&*old(board)), warps_of(&*old(warps))), x as int, y as int)
                    == Err::<Tick, PlanarError>(e),
            },
    {
        proof {
            self.lemma_views();
            lemma_row_len(board, y as int);
            assert(grid_of(&*board)[y as int] == board@[y as int]@.map_values(|c: Cell| c@));
        }
        let ghost ws = warps_of(&*warps);
        proof {
            reveal(cell_action);
        }
        let act = match &board[y][x] {
            Cell::InputA => Act::PutA,
            Cell::InputB => Act::PutB,
            Cell::Up => Act::Move(0, -1),
            Cell::Down => Act::Move(0, 1),
            Cell::Right => Act::Move(1, 0),
            Cell::Left => Act::Move(-1, 0),
            Cell::Number(_) => Act::Idle,
            Cell::Empty => Act::Idle,
            Cell::Submit => Act::Idle,
            Cell::Plus => Act::Arith,
            Cell::Minus => Act::Arith,
            Cell::Mul => Act::Arith,
            Cell::Div => Act::Arith,
            Cell::Rem => Act::Arith,
            Cell::Eq => Act::Comp,
            Cell::Neq => Act::Comp,
            Cell::Warp(_) => Act::Warp,
            Cell::Label(_, _) => Act::Stuck,
        };
        match act {
            Act::PutA => {
                put_value(board, x, y, self.input_a.copy());
                Ok(())
            },
            Act::PutB => {
                put_value(board, x, y, self.input_b.copy());
                Ok(())
            },
            Act::Move(dx, dy) => self.move_v(board, x, y, dx, dy, Ghost(ws)),
            Act::Idle => Ok(()),
            Act::Arith => self.binop_arith(board, x, y, Ghost(ws)),
            Act::Comp => self.binop_comp(board, x, y, Ghost(ws)),
            Act::Warp => self.warp(x, y, warps, Ghost(grid_of(&*board))),
            Act::Stuck => Err(PlanarError::NotImplemented),
        }
    }
}

proof fn lemma_run_cells_row_end(old: Seq<Seq<Tile>>, a: int, b: int, t: Tick, h: int, w: int, y: int)
    requires
        0 <= y < h,
        0 <= w,
    ensures
        run_cells(old, a, b, t, h, w, y, w) == run_cells(old, a, b, t, h, w, y + 1, 0),
{
}

impl State {
    /// Whether the board is well shaped (see `well_shaped`).
    pub fn is_well_shaped(&self) -> (r: bool)
        ensures
            r == well_shaped(self@),
    {
        proof {
            self.lemma_views();
        }
        let h = self.board.0.len();
        if h == 0 || h >= 2147483647 {
            return false;
        }
        let w = self.board.0[0].len();
        proof {
            lemma_row_len(&self.board.0, 0);
        }
        if w == 0 || w >= 2147483647 {
            return false;
        }
        if !grid_has_shape(&self.board.0, h, w) {
            return false;
        }
        let mut k: usize = 0;
        let mut ok = true;
        while k < self.history.len()
            invariant
                k <= self.history.len(),
                h == self@.board.len(),
                w == self@.board[0].len(),
                self@.history == self.history@.map_values(|b: Board| b@),
                ok <==> forall|i: int| 0 <= i < k ==> grid_shape(#[trigger] self@.history[i], h as int, w as int),
            decreases self.history.len() - k,
        {
            assert(self@.history[k as int] == grid_of(&self.history@[k as int].0));
            if !grid_has_shape(&self.history[k].0, h, w) {
                ok = false;
            }
            k = k + 1;
        }
        ok
    }

    /// One tick of the board (see `tick_result`).
    #[verifier::rlimit(80)]
    pub fn onestep(&mut self) -> (r: Result<(), PlanarError>)
        requires
            steppable(old(self)@),
        ensures
            match r {
                Ok(()) => tick_result(old(self)@) == Ok::<Sim, PlanarError>(final(self)@) && well_shaped(final(self)@),
                Err(e) => tick_result(old(self)@) == Err::<Sim, PlanarError>(e),
            },
    {
        let ghost s0 = self@;
        proof {
            self.lemma_views();
            lemma_row_len(&self.board.0, 0);
        }
        self.monotonic_tick = self.monotonic_tick + 1;
        let h = self.board.0.len();
        let w = self.board.0[0].len();
        if self.find_label() {
            return Err(PlanarError::UnresolvedLabel);
        }
        let snapshot = clone_grid(&self.board.0);
        self.history.push(Board(snapshot));
        self.tick = self.tick + 1;
        if self.tick > self.max_tick {
            self.max_tick = self.tick;
        }
        let mut warp_requests: Vec<(i32, i32, i32, BigNum)> = Vec::new();
        let mut new_board = clone_grid(&self.board.0);
        self.written = unwritten_vec(h, w);
        let ghost s1 = self@;
        proof {
            self.lemma_views();
            assert(s1.history =~= s0.history.push(s0.board));
            assert(warps_of(&warp_requests) =~= Seq::<(int, int, int, int)>::empty());
            assert(tick_at(s1, grid_of(&new_board), warps_of(&warp_requests)) == start_tick(s0));
        }
        let mut y: usize = 0;
        while y < h
            invariant
                old(self)@ == s0,
                s1.board == s0.board,
                s1.a == s0.a,
                s1.b == s0.b,
                s1.history == s0.history.push(s0.board),
                s1.tick == s0.tick + 1,
                s1.max_tick == ticked(s0, start_tick(s0)).max_tick,
                s1.monotonic_tick == s0.monotonic_tick + 1,
                well_shaped(s0),
                same_frame(s1, self@),
                self.ticking(grid_of(&new_board)),
                h == s0.board.len(),
                w == s0.board[0].len(),
                y <= h,
                !has_label(s0.board),
                result_from(s0, run_cells(s0.board, s0.a, s0.b, start_tick(s0), h as int, w as int, 0, 0))
                    == result_from(s0, run_cells(
                    s0.board,
                    s0.a,
                    s0.b,
                    tick_at(self@, grid_of(&new_board), warps_of(&warp_requests)),
                    h as int,
                    w as int,
                    y as int,
                    0,
                )),
            decreases h - y,
        {
            let mut x: usize = 0;
            while x < w
                invariant
                    old(self)@ == s0,
                    s1.board == s0.board,
                    s1.a == s0.a,
                    s1.b == s0.b,
                    same_frame(s1, self@),
                    self.ticking(grid_of(&new_board)),
                    h == s0.board.len(),
                    w == s0.board[0].len(),
                    y < h,
                    x <= w,
                    !has_label(s0.board),
                    result_from(s0, run_cells(s0.board, s0.a, s0.b, start_tick(s0), h as int, w as int, 0, 0))
                        == result_from(s0, run_cells(
                        s0.board,
                        s0.a,
                        s0.b,
                        tick_at(self@, grid_of(&new_board), warps_of(&warp_requests)),
                        h as int,
                        w as int,
                        y as int,
                        x as int,
                    )),
                decreases w - x,
            {
                let ghost tb = tick_at(self@, grid_of(&new_board), warps_of(&warp_requests));
                proof {
                    lemma_run_cells_step(s0.board, s0.a, s0.b, tb, h as int, w as int, y as int, x as int);
                }
                match self.step_cell(&mut new_board, x, y, &mut warp_requests) {
                    Ok(()) => {},
                    Err(e) => {
                        proof {
                            assert(cell_action(s0.board, s0.a, s0.b, tb, x as int, y as int) == Err::<Tick, PlanarError>(e));
                            assert(run_cells(s0.board, s0.a, s0.b, tb, h as int, w as int, y as int, x as int) == Err::<Tick, PlanarError>(e));
                            reveal(result_from);
                            lemma_tick_result_cells(s0);
                            assert(result_from(s0, Err::<Tick, PlanarError>(e)) == Err::<Sim, PlanarError>(e));
                        }
                        return Err(e);
                    },
                }
                x = x + 1;
            }
            proof {
                lemma_run_cells_row_end(s0.board, s0.a, s0.b, tick_at(self@, grid_of(&new_board), warps_of(&warp_requests)), h as int, w as int, y as int);
            }
            y = y + 1;
        }
        let ghost t = tick_at(self@, grid_of(&new_board), warps_of(&warp_requests));
        proof {
            reveal(result_from);
            lemma_tick_result_cells(s0);
        }
        assert(tick_result(s0) == after_cells(s0, t));
        proof {
            self.lemma_views();
            assert(self@ == ticked(s0, t));
        }
        if self.output.is_some() {
            return Ok(());
        }
        if warp_requests.len() == 0 {
            self.board.0 = new_board;
            proof {
                self.lemma_views();
                assert(self@ == Sim { board: t.new, ..ticked(s0, t) });
            }
            return Ok(());
        }
        let dt = warp_requests[0].0;
        let mut consistent = true;
        let mut i: usize = 0;
        while i < warp_requests.len()
            invariant
                i <= warp_requests.len(),
                warp_requests.len() > 0,
                dt == warp_requests@[0].0,
                consistent <==> forall|k: int| 0 <= k < i ==> (#[trigger] warp_requests@[k]).0 == dt,
            decreases warp_requests.len() - i,
        {
            if warp_requests[i].0 != dt {
                consistent = false;
            }
            i = i + 1;
        }
        if !consistent {
            assert(!same_dt(warps_of(&warp_requests))) by {
                let k = choose|k: int| 0 <= k < warp_requests.len() && (#[trigger] warp_requests@[k]).0 != dt;
                assert(warps_of(&warp_requests)[k].0 != warps_of(&warp_requests)[0].0);
            }
            return Err(PlanarError::InconsistentWarp);
        }
        assert(same_dt(warps_of(&warp_requests))) by {
            assert forall|k: int| 0 <= k < warps_of(&warp_requests).len() implies (#[trigger] warps_of(&warp_requests)[k]).0 == warps_of(&warp_requests)[0].0 by {
                assert(warp_requests@[k].0 == dt);
            }
        }
        let hl = self.history.len();
        if dt < 0 || dt as usize >= hl {
            return Err(PlanarError::WarpOutOfTime);
        }
        let target = hl - (dt as usize) - 1;
        assert(self@.history[target as int] == self.history@[target as int]@);
        let back = clone_grid(&self.history[target].0);
        self.tick = (target + 1) as i32;
        self.history.truncate(target);
        proof {
            lemma_row_len(&back, 0);
        }
        let bh = back.len();
        let bw = back[0].len();
        self.written = unwritten_vec(bh, bw);
        new_board = back;
        let ghost ws = warps_of(&warp_requests);
        proof {
            self.lemma_views();
            assert(self@.history =~= s1.history.take(target as int));
            assert(tick_at(self@, grid_of(&new_board), ws) == back_tick(s0, t, target as int));
            assert(tick_result(s0) == warped(s0, t, target as int, apply_warps(tick_at(self@, grid_of(&new_board), ws), ws, 0)));
        }
        let mut k: usize = 0;
        while k < warp_requests.len()
            invariant
                k <= warp_requests.len(),
                old(self)@ == s0,
                ws == warps_of(&warp_requests),
                self.ticking(grid_of(&new_board)),
                well_shaped(s0),
                target < s1.history.len(),
                self@.board == s0.board,
                self@.history == s1.history.take(target as int),
                self@.a == s0.a,
                self@.b == s0.b,
                self@.tick == target + 1,
                self@.max_tick == ticked(s0, t).max_tick,
                self@.monotonic_tick == s0.monotonic_tick + 1,
                s1.history == s0.history.push(s0.board),
                tick_result(s0) == warped(s0, t, target as int, apply_warps(tick_at(self@, grid_of(&new_board), ws), ws, k as int)),
            decreases warp_requests.len() - k,
        {
            let wx = warp_requests[k].1;
            let wy = warp_requests[k].2;
            proof {
                self.lemma_views();
                lemma_row_len(&new_board, 0);
            }
            assert(ws[k as int] == (warp_requests@[k as int].0 as int, wx as int, wy as int, warp_requests@[k as int].3@));
            proof {
                lemma_apply_warps_step(tick_at(self@, grid_of(&new_board), ws), ws, k as int);
            }
            if !inside(&new_board, wx, wy) {
                return Err(PlanarError::InvalidWrite);
            }
            assert(self@.written[wy as int] == self.written@[wy as int]@);
            if self.written[wy as usize][wx as usize] {
                proof {
                    lemma_row_len(&new_board, wy as int);
                    assert(grid_of(&new_board)[wy as int] == new_board@[wy as int]@.map_values(|c: Cell| c@));
                }
                if let Cell::Number(old_v) = &new_board[wy as usize][wx as usize] {
                    if !warp_requests[k].3.eq_value(old_v) {
                        assert(grid_of(&new_board)[wy as int][wx as int] == Tile::Number(old_v@));
                        return Err(PlanarError::ConflictingWarp);
                    }
                }
            }
            let v = warp_requests[k].3.copy();
            match self.write_to(&mut new_board, wx, wy, Cell::Number(v), Ghost(ws)) {
                Ok(()) => {},
                Err(e) => {
                    return Err(e);
                },
            }
            k = k + 1;
        }
        self.board.0 = new_board;
        proof {
            self.lemma_views();
        }
        Ok(())
    }

    /// Whether some cell of the board is a label.
    fn find_label(&self) -> (r: bool)
        requires
            well_shaped(self@),
        ensures
            r == has_label(self@.board),
    {
        proof {
            self.lemma_views();
            lemma_row_len(&self.board.0, 0);
        }
        let ghost g = self@.board;
        let h = self.board.0.len();
        let w = self.board.0[0].len();
        let mut y: usize = 0;
        while y < h
            invariant
                h == self.board.0.len(),
                g == grid_of(&self.board.0),
                sized(g, h as int, w as int),
                y <= h,
                forall|i: int, j: int| 0 <= i < y && 0 <= j < w ==> !(#[trigger] g[i][j] is Label),
            decreases h - y,
        {
            proof {
                lemma_row_len(&self.board.0, y as int);
                assert(g[y as int] == self.board.0@[y as int]@.map_values(|c: Cell| c@));
            }
            let mut x: usize = 0;
            while x < w
                invariant
                    h == self.board.0.len(),
                    g == grid_of(&self.board.0),
                    sized(g, h as int, w as int),
                    y < h,
                    x <= w,
                    g[y as int] == self.board.0@[y as int]@.map_values(|c: Cell| c@),
                    forall|i: int, j: int| 0 <= i < y && 0 <= j < w ==> !(#[trigger] g[i][j] is Label),
                    forall|j: int| 0 <= j < x ==> !(#[trigger] g[y as int][j] is Label),
                decreases w - x,
            {
                if let Cell::Label(_, _) = &self.board.0[y][x] {
                    assert(g[y as int][x as int] is Label);
                    return true;
                }
                x = x + 1;
            }
            y = y + 1;
        }
        assert(!has_label(g)) by {
            if has_label(g) {
                let (i, j) = choose|i: int, j: int| 0 <= i < g.len() && 0 <= j < g[i].len() && #[trigger] g[i][j] is Label;
                assert(g[i][j] is Label);
            }
        }
        false
    }
}

/// Whether the rows number `h` and all hold `w` cells.
fn grid_has_shape(g: &Vec<Vec<Cell>>, h: usize, w: usize) -> (r: bool)
    ensures
        r == grid_shape(grid_of(g), h as int, w as int),
{
    if g.len() != h {
        return false;
    }
    let mut y: usize = 0;
    let mut ok = true;
    while y < h
        invariant
            h == g.len(),
            y <= h,
            ok <==> forall|i: int| 0 <= i < y ==> (#[trigger] grid_of(g)[i]).len() == w,
        decreases h - y,
    {
        proof {
            lemma_row_len(g, y as int);
        }
        if g[y].len() != w {
            ok = false;
        }
        y = y + 1;
    }
    ok
}

proof fn lemma_tick_result_cells(s: Sim)
    requires
        !has_label(s.board),
    ensures
        tick_result(s) == result_from(
            s,
            run_cells(s.board, s.a, s.b, start_tick(s), s.board.len() as int, s.board[0].len() as int, 0, 0),
        ),
{
    reveal(result_from);
}

proof fn lemma_apply_warps_step(t: Tick, ws: Seq<(int, int, int, int)>, i: int)
    requires
        0 <= i < ws.len(),
    ensures
        apply_warps(t, ws, i) == ({
            let (_, x, y, v) = ws[i];
            if !g_inside(t.new, x, y) {
                Err(PlanarError::InvalidWrite)
            } else if t.written[y][x] && t.new[y][x] is Number && t.new[y][x]->Number_0 != v {
                Err(PlanarError::ConflictingWarp)
            } else {
                match write_tile(t, x, y, Tile::Number(v)) {
                    Ok(t2) => apply_warps(t2, ws, i + 1),
                    Err(e) => Err(e),
                }
            }
        }),
{
}

proof fn lemma_run_cells_step(old: Seq<Seq<Tile>>, a: int, b: int, t: Tick, h: int, w: int, y: int, x: int)
    requires
        0 <= y < h,
        0 <= x < w,
    ensures
        run_cells(old, a, b, t, h, w, y, x) == match cell_action(old, a, b, t, x, y) {
            Ok(t2) => run_cells(old, a, b, t2, h, w, y, x + 1),
            Err(e) => Err(e),
        },
{
}

/// A label found on the board: its name, position and initial value.
pub type LabelAt = (Seq<char>, int, int, Option<Tile>);

/// A warp that refers to a label: the label's name and the warp's position.
pub type RefAt = (Seq<char>, int, int);

/// The label that the cell at `(x, y)` makes: a label cell, or an input
/// cell under its own name.
pub open spec fn label_here(g: Seq<Seq<Tile>>, y: int, x: int) -> Seq<LabelAt> {
    match g[y][x] {
        Tile::Label(c, init) => seq![(
            c,
            x,
            y,
            match init {
                Some(b) => Some(*b),
                None => None,
            },
        )],
        Tile::InputA => seq![("A"@, x, y, None)],
        Tile::InputB => seq![("B"@, x, y, None)],
        _ => Seq::empty(),
    }
}

/// The reference that the cell at `(x, y)` makes: a warp with a name other
/// than `_`.
pub open spec fn ref_here(g: Seq<Seq<Tile>>, y: int, x: int) -> Seq<RefAt> {
    match g[y][x] {
        Tile::Warp(c) => if c != "_"@ {
            seq![(c, x, y)]
        } else {
            Seq::empty()
        },
        _ => Seq::empty(),
    }
}

/// The labels of the cells before `(x, y)`, row by row.
pub open spec fn labels_upto(g: Seq<Seq<Tile>>, y: int, x: int) -> Seq<LabelAt>
    decreases y, x,
{
    if y <= 0 && x <= 0 {
        Seq::empty()
    } else if x > 0 {
        labels_upto(g, y, x - 1) + label_here(g, y, x - 1)
    } else {
        labels_upto(g, y - 1, g[y - 1].len() as int)
    }
}

/// The references of the cells before `(x, y)`, row by row.
pub open spec fn refs_upto(g: Seq<Seq<Tile>>, y: int, x: int) -> Seq<RefAt>
    decreases y, x,
{
    if y <= 0 && x <= 0 {
        Seq::empty()
    } else if x > 0 {
        refs_upto(g, y, x - 1) + ref_here(g, y, x - 1)
    } else {
        refs_upto(g, y - 1, g[y - 1].len() as int)
    }
}

/// The name of an input: `A` or `B`.
pub open spec fn input_name(c: Seq<char>) -> bool {
    c == "A"@ || c == "B"@
}

/// Some label other than an input has no warp that refers to it.
pub open spec fn some_unused(ls: Seq<LabelAt>, rs: Seq<RefAt>) -> bool {
    exists|i: int| 0 <= i < ls.len() && !input_name(#[trigger] ls[i].0) && forall|j: int| 0 <= j < rs.len() ==> (#[trigger] rs[j]).0 != ls[i].0
}

/// Some warp refers to no label.
pub open spec fn some_missing(ls: Seq<LabelAt>, rs: Seq<RefAt>) -> bool {
    exists|j: int| 0 <= j < rs.len() && forall|i: int| 0 <= i < ls.len() ==> (#[trigger] ls[i]).0 != (#[trigger] rs[j]).0
}

/// `g` with `v` at `(x, y)`.
pub open spec fn put(g: Seq<Seq<Tile>>, x: int, y: int, v: Tile) -> Seq<Seq<Tile>> {
    g.update(y, g[y].update(x, v))
}

/// The board after the warp `r` took the offsets of the first `i` labels
/// with its name: the offset in x left of it, in y right of it.
pub open spec fn ref_written(g: Seq<Seq<Tile>>, ls: Seq<LabelAt>, r: RefAt, i: int) -> Seq<Seq<Tile>>
    decreases i,
{
    if i <= 0 {
        g
    } else {
        let h = ref_written(g, ls, r, i - 1);
        let l = ls[i - 1];
        if l.0 == r.0 {
            put(put(h, r.1 - 1, r.2, Tile::Number(r.1 - l.1)), r.1 + 1, r.2, Tile::Number(r.2 - l.2))
        } else {
            h
        }
    }
}

/// The board after the first `j` warps took their offsets.
pub open spec fn refs_written(g: Seq<Seq<Tile>>, ls: Seq<LabelAt>, rs: Seq<RefAt>, j: int) -> Seq<Seq<Tile>>
    decreases j,
{
    if j <= 0 {
        g
    } else {
        ref_written(refs_written(g, ls, rs, j - 1), ls, rs[j - 1], ls.len() as int)
    }
}

/// The board after the first `i` labels other than inputs were replaced by
/// their initial values, or emptied.
pub open spec fn labels_cleared(g: Seq<Seq<Tile>>, ls: Seq<LabelAt>, i: int) -> Seq<Seq<Tile>>
    decreases i,
{
    if i <= 0 {
        g
    } else {
        let h = labels_cleared(g, ls, i - 1);
        let l = ls[i - 1];
        if input_name(l.0) {
            h
        } else {
            put(
                h,
                l.1,
                l.2,
                match l.3 {
                    Some(t) => t,
                    None => Tile::Empty,
                },
            )
        }
    }
}

/// The board with its labels resolved: each named warp gets the offset to
/// its label written beside it, and each label is replaced by its initial
/// value; or the error for a label that no warp uses or a warp without a
/// label.
pub open spec fn resolved(g: Seq<Seq<Tile>>) -> Result<Seq<Seq<Tile>>, PlanarError> {
    let ls = labels_upto(g, g.len() as int, 0);
    let rs = refs_upto(g, g.len() as int, 0);
    if some_unused(ls, rs) {
        Err(PlanarError::UnusedLabel)
    } else if some_missing(ls, rs) {
        Err(PlanarError::LabelNotFound)
    } else {
        Ok(labels_cleared(refs_written(g, ls, rs, rs.len() as int), ls, ls.len() as int))
    }
}

/// Every named warp has a cell on each side in its row, and positions fit
/// in `i32`.
pub open spec fn warps_framed(g: Seq<Seq<Tile>>) -> bool {
    &&& g.len() < i32::MAX
    &&& forall|y: int| 0 <= y < g.len() ==> (#[trigger] g[y]).len() < i32::MAX
    &&& forall|y: int, x: int|
        0 <= y < g.len() && 0 <= x < g[y].len() && #[trigger] g[y][x] is Warp && g[y][x]->Warp_0 != "_"@
            ==> 1 <= x && x + 1 < g[y].len()
}

/// The model of a label found on the board.
pub open spec fn label_view(l: (String, usize, usize, Option<Cell>)) -> LabelAt {
    (
        l.0@,
        l.1 as int,
        l.2 as int,
        match l.3 {
            Some(c) => Some(c@),
            None => None,
        },
    )
}

/// The model of a warp that refers to a label.
pub open spec fn ref_view(r: (String, usize, usize)) -> RefAt {
    (r.0@, r.1 as int, r.2 as int)
}

/// Whether the name is that of an input.
fn is_input_name(c: &String) -> (r: bool)
    ensures
        r == input_name(c@),
{
    crate::text::str_eq(c.as_str(), "A") || crate::text::str_eq(c.as_str(), "B")
}

/// The labels and the named warps of the board, row by row.
fn scan_labels(g: &Vec<Vec<Cell>>) -> (r: (Vec<(String, usize, usize, Option<Cell>)>, Vec<(String, usize, usize)>))
    ensures
        r.0@.map_values(|l: (String, usize, usize, Option<Cell>)| label_view(l)) == labels_upto(grid_of(g), g.len() as int, 0),
        r.1@.map_values(|x: (String, usize, usize)| ref_view(x)) == refs_upto(grid_of(g), g.len() as int, 0),
{
    let ghost gv = grid_of(g);
    let mut labels: Vec<(String, usize, usize, Option<Cell>)> = Vec::new();
    let mut refs: Vec<(String, usize, usize)> = Vec::new();
    let mut y: usize = 0;
    while y < g.len()
        invariant
            gv == grid_of(g),
            y <= g.len(),
            labels@.map_values(|l: (String, usize, usize, Option<Cell>)| label_view(l)) == labels_upto(gv, y as int, 0),
            refs@.map_values(|x: (String, usize, usize)| ref_view(x)) == refs_upto(gv, y as int, 0),
        decreases g.len() - y,
    {
        let row = &g[y];
        proof {
            lemma_row_len(g, y as int);
            assert(gv[y as int] == row@.map_values(|c: Cell| c@));
        }
        let mut x: usize = 0;
        while x < row.len()
            invariant
                gv == grid_of(g),
                y < g.len(),
                x <= row.len(),
                row == &g@[y as int],
                gv[y as int] == row@.map_values(|c: Cell| c@),
                labels@.map_values(|l: (String, usize, usize, Option<Cell>)| label_view(l)) == labels_upto(gv, y as int, x as int),
                refs@.map_values(|x: (String, usize, usize)| ref_view(x)) == refs_upto(gv, y as int, x as int),
            decreases row.len() - x,
        {
            let ghost lb = labels@.map_values(|l: (String, usize, usize, Option<Cell>)| label_view(l));
            let ghost rb = refs@.map_values(|x: (String, usize, usize)| ref_view(x));
            assert(gv[y as int][x as int] == row@[x as int]@);
            match &row[x] {
                Cell::Label(c, init) => {
                    let i = match init {
                        Some(b) => Some((**b).copy()),
                        None => None,
                    };
                    let item = (c.clone(), x, y, i);
                    labels.push(item);
                    assert(labels@.map_values(|l: (String, usize, usize, Option<Cell>)| label_view(l)) =~= lb.push(label_view(item)));
                },
                Cell::InputA => {
                    let item = (str_of("A"), x, y, None);
                    labels.push(item);
                    assert(labels@.map_values(|l: (String, usize, usize, Option<Cell>)| label_view(l)) =~= lb.push(label_view(item)));
                },
                Cell::InputB => {
                    let item = (str_of("B"), x, y, None);
                    labels.push(item);
                    assert(labels@.map_values(|l: (String, usize, usize, Option<Cell>)| label_view(l)) =~= lb.push(label_view(item)));
                },
                Cell::Warp(c) => {
                    if !crate::text::str_eq(c.as_str(), "_") {
                        let item = (c.clone(), x, y);
                        refs.push(item);
                        assert(refs@.map_values(|x: (String, usize, usize)| ref_view(x)) =~= rb.push(ref_view(item)));
                    }
                },
                _ => {},
            }
            proof {
                assert(labels@.map_values(|l: (String, usize, usize, Option<Cell>)| label_view(l)) =~= labels_upto(gv, y as int, x as int) + label_here(gv, y as int, x as int));
                assert(refs@.map_values(|x: (String, usize, usize)| ref_view(x)) =~= refs_upto(gv, y as int, x as int) + ref_here(gv, y as int, x as int));
            }
            x = x + 1;
        }
        y = y + 1;
    }
    (labels, refs)
}

/// The label lies on the board.
pub open spec fn label_pos_ok(g: Seq<Seq<Tile>>, l: LabelAt) -> bool {
    0 <= l.2 < g.len() && 0 <= l.1 < g[l.2].len()
}

/// The reference is a named warp on the board.
pub open spec fn ref_pos_ok(g: Seq<Seq<Tile>>, r: RefAt) -> bool {
    0 <= r.2 < g.len() && 0 <= r.1 < g[r.2].len() && g[r.2][r.1] == Tile::Warp(r.0) && r.0 != "_"@
}

proof fn lemma_scan_positions(g: Seq<Seq<Tile>>, y: int, x: int)
    requires
        0 <= y <= g.len(),
        0 <= x,
        y < g.len() ==> x <= g[y].len(),
        y == g.len() ==> x == 0,
    ensures
        forall|i: int| 0 <= i < labels_upto(g, y, x).len() ==> label_pos_ok(g, #[trigger] labels_upto(g, y, x)[i]),
        forall|j: int| 0 <= j < refs_upto(g, y, x).len() ==> ref_pos_ok(g, #[trigger] refs_upto(g, y, x)[j]),
    decreases y, x,
{
    if y <= 0 && x <= 0 {
    } else if x > 0 {
        lemma_scan_positions(g, y, x - 1);
        let lp = labels_upto(g, y, x - 1);
        let rp = refs_upto(g, y, x - 1);
        assert forall|i: int| 0 <= i < labels_upto(g, y, x).len() implies label_pos_ok(g, #[trigger] labels_upto(g, y, x)[i]) by {
            if i >= lp.len() {
                assert(labels_upto(g, y, x)[i] == label_here(g, y, x - 1)[i - lp.len()]);
            } else {
                assert(labels_upto(g, y, x)[i] == lp[i]);
            }
        }
        assert forall|j: int| 0 <= j < refs_upto(g, y, x).len() implies ref_pos_ok(g, #[trigger] refs_upto(g, y, x)[j]) by {
            if j >= rp.len() {
                assert(refs_upto(g, y, x)[j] == ref_here(g, y, x - 1)[j - rp.len()]);
            } else {
                assert(refs_upto(g, y, x)[j] == rp[j]);
            }
        }
    } else {
        lemma_scan_positions(g, y - 1, g[y - 1].len() as int);
        assert(labels_upto(g, y, x) == labels_upto(g, y - 1, g[y - 1].len() as int));
        assert(refs_upto(g, y, x) == refs_upto(g, y - 1, g[y - 1].len() as int));
    }
}

proof fn lemma_put_lens(g: Seq<Seq<Tile>>, x: int, y: int, v: Tile)
    requires
        0 <= y < g.len(),
        0 <= x < g[y].len(),
    ensures
        put(g, x, y, v).len() == g.len(),
        forall|k: int| 0 <= k < g.len() ==> (#[trigger] put(g, x, y, v)[k]).len() == g[k].len(),
{
}

/// Whether some label other than an input has no warp that refers to it.
fn has_unused(labels: &Vec<(String, usize, usize, Option<Cell>)>, refs: &Vec<(String, usize, usize)>) -> (r: bool)
    ensures
        r == some_unused(
            labels@.map_values(|l: (String, usize, usize, Option<Cell>)| label_view(l)),
            refs@.map_values(|x: (String, usize, usize)| ref_view(x)),
        ),
{
    let ghost ls = labels@.map_values(|l: (String, usize, usize, Option<Cell>)| label_view(l));
    let ghost rs = refs@.map_values(|x: (String, usize, usize)| ref_view(x));
    let mut unused = false;
    let mut i: usize = 0;
    while i < labels.len()
        invariant
            i <= labels.len(),
            ls == labels@.map_values(|l: (String, usize, usize, Option<Cell>)| label_view(l)),
            rs == refs@.map_values(|x: (String, usize, usize)| ref_view(x)),
            unused <==> exists|k: int|
                0 <= k < i && !input_name(#[trigger] ls[k].0) && forall|j: int| 0 <= j < rs.len() ==> (#[trigger] rs[j]).0 != ls[k].0,
        decreases labels.len() - i,
    {
        if !is_input_name(&labels[i].0) {
            let mut found = false;
            let mut j: usize = 0;
            while j < refs.len()
                invariant
                    j <= refs.len(),
                    i < labels.len(),
                    ls == labels@.map_values(|l: (String, usize, usize, Option<Cell>)| label_view(l)),
                    rs == refs@.map_values(|x: (String, usize, usize)| ref_view(x)),
                    found <==> exists|jj: int| 0 <= jj < j && (#[trigger] rs[jj]).0 == ls[i as int].0,
                decreases refs.len() - j,
            {
                if crate::text::str_eq(refs[j].0.as_str(), labels[i].0.as_str()) {
                    found = true;
                    assert(rs[j as int].0 == ls[i as int].0);
                }
                j = j + 1;
            }
            if !found {
                unused = true;
                assert(!input_name(ls[i as int].0));
            }
        }
        i = i + 1;
    }
    unused
}

/// The board and the rows' lengths are those of `g`.
pub open spec fn same_lens(b: Seq<Seq<Tile>>, g: Seq<Seq<Tile>>) -> bool {
    b.len() == g.len() && forall|k: int| 0 <= k < g.len() ==> (#[trigger] b[k]).len() == g[k].len()
}

/// Writes the offsets from the named warps to their labels beside the
/// warps; `false` when some warp refers to no label.
#[verifier::rlimit(60)]
fn write_offsets(
    board: &mut Vec<Vec<Cell>>,
    labels: &Vec<(String, usize, usize, Option<Cell>)>,
    refs: &Vec<(String, usize, usize)>,
    g: Ghost<Seq<Seq<Tile>>>,
) -> (r: bool)
    requires
        grid_of(&*old(board)) == g@,
        warps_framed(g@),
        forall|k: int| 0 <= k < labels.len() ==> label_pos_ok(g@, #[trigger] label_view(labels@[k])),
        forall|k: int| 0 <= k < refs.len() ==> ref_pos_ok(g@, #[trigger] ref_view(refs@[k])),
    ensures
        r == !some_missing(
            labels@.map_values(|l: (String, usize, usize, Option<Cell>)| label_view(l)),
            refs@.map_values(|x: (String, usize, usize)| ref_view(x)),
        ),
        r ==> grid_of(&*final(board)) == refs_written(
            g@,
            labels@.map_values(|l: (String, usize, usize, Option<Cell>)| label_view(l)),
            refs@.map_values(|x: (String, usize, usize)| ref_view(x)),
            refs.len() as int,
        ),
        r ==> same_lens(grid_of(&*final(board)), g@),
{
    let ghost ls = labels@.map_values(|l: (String, usize, usize, Option<Cell>)| label_view(l));
    let ghost rs = refs@.map_values(|x: (String, usize, usize)| ref_view(x));
    let mut j: usize = 0;
    while j < refs.len()
        invariant
            j <= refs.len(),
            ls == labels@.map_values(|l: (String, usize, usize, Option<Cell>)| label_view(l)),
            rs == refs@.map_values(|x: (String, usize, usize)| ref_view(x)),
            warps_framed(g@),
            forall|k: int| 0 <= k < labels.len() ==> label_pos_ok(g@, #[trigger] label_view(labels@[k])),
            forall|k: int| 0 <= k < refs.len() ==> ref_pos_ok(g@, #[trigger] ref_view(refs@[k])),
            grid_of(&*board) == refs_written(g@, ls, rs, j as int),
            same_lens(grid_of(&*board), g@),
            forall|jj: int| 0 <= jj < j ==> exists|k: int| 0 <= k < ls.len() && (#[trigger] ls[k]).0 == (#[trigger] rs[jj]).0,
        decreases refs.len() - j,
    {
        let ghost before = grid_of(&*board);
        let rx = refs[j].1;
        let ry = refs[j].2;
        proof {
            assert(ref_pos_ok(g@, ref_view(refs@[j as int])));
            assert(g@[ry as int][rx as int] is Warp);
            assert(1 <= rx && rx + 1 < g@[ry as int].len());
            assert(rs[j as int] == ref_view(refs@[j as int]));
        }
        let mut found = false;
        let mut i: usize = 0;
        while i < labels.len()
            invariant
                i <= labels.len(),
                j < refs.len(),
                rx == refs@[j as int].1,
                ry == refs@[j as int].2,
                1 <= rx,
                rx + 1 < g@[ry as int].len(),
                ry < g@.len(),
                warps_framed(g@),
                ls == labels@.map_values(|l: (String, usize, usize, Option<Cell>)| label_view(l)),
                rs == refs@.map_values(|x: (String, usize, usize)| ref_view(x)),
                forall|k: int| 0 <= k < labels.len() ==> label_pos_ok(g@, #[trigger] label_view(labels@[k])),
                grid_of(&*board) == ref_written(before, ls, rs[j as int], i as int),
                same_lens(grid_of(&*board), g@),
                found <==> exists|k: int| 0 <= k < i && (#[trigger] ls[k]).0 == rs[j as int].0,
            decreases labels.len() - i,
        {
            if crate::text::str_eq(labels[i].0.as_str(), refs[j].0.as_str()) {
                found = true;
                let tx = labels[i].1;
                let ty = labels[i].2;
                proof {
                    assert(label_pos_ok(g@, label_view(labels@[i as int])));
                    assert(ls[i as int] == label_view(labels@[i as int]));
                    assert(g@[ty as int].len() < i32::MAX);
                    lemma_row_len(board, ry as int);
                }
                let dx = rx as i64 - tx as i64;
                let dy = ry as i64 - ty as i64;
                let ghost b1 = grid_of(&*board);
                set_cell(board, rx - 1, ry, Cell::Number(BigNum::from_i64(dx)));
                proof {
                    lemma_put_lens(b1, rx - 1, ry as int, Tile::Number(dx as int));
                    lemma_row_len(board, ry as int);
                }
                let ghost b2 = grid_of(&*board);
                set_cell(board, rx + 1, ry, Cell::Number(BigNum::from_i64(dy)));
                proof {
                    lemma_put_lens(b2, rx + 1, ry as int, Tile::Number(dy as int));
                }
            }
            i = i + 1;
        }
        if !found {
            proof {
                assert(some_missing(ls, rs)) by {
                    assert forall|k: int| 0 <= k < ls.len() implies (#[trigger] ls[k]).0 != (#[trigger] rs[j as int]).0 by {}
                }
            }
            return false;
        }
        j = j + 1;
    }
    assert(!some_missing(ls, rs)) by {
        if some_missing(ls, rs) {
            let jj = choose|jj: int| 0 <= jj < rs.len() && forall|i: int| 0 <= i < ls.len() ==> (#[trigger] ls[i]).0 != (#[trigger] rs[jj]).0;
            let k = choose|k: int| 0 <= k < ls.len() && (#[trigger] ls[k]).0 == (#[trigger] rs[jj]).0;
            assert(ls[k].0 == rs[jj].0);
        }
    }
    true
}

/// Replaces each label other than an input by its initial value, or empties
/// it.
fn clear_labels(board: &mut Vec<Vec<Cell>>, labels: &Vec<(String, usize, usize, Option<Cell>)>, g: Ghost<Seq<Seq<Tile>>>)
    requires
        same_lens(grid_of(&*old(board)), g@),
        forall|k: int| 0 <= k < labels.len() ==> label_pos_ok(g@, #[trigger] label_view(labels@[k])),
    ensures
        grid_of(&*final(board)) == labels_cleared(
            grid_of(&*old(board)),
            labels@.map_values(|l: (String, usize, usize, Option<Cell>)| label_view(l)),
            labels.len() as int,
        ),
{
    let ghost ls = labels@.map_values(|l: (String, usize, usize, Option<Cell>)| label_view(l));
    let ghost start = grid_of(&*board);
    let mut i: usize = 0;
    while i < labels.len()
        invariant
            i <= labels.len(),
            ls == labels@.map_values(|l: (String, usize, usize, Option<Cell>)| label_view(l)),
            forall|k: int| 0 <= k < labels.len() ==> label_pos_ok(g@, #[trigger] label_view(labels@[k])),
            grid_of(&*board) == labels_cleared(start, ls, i as int),
            same_lens(grid_of(&*board), g@),
        decreases labels.len() - i,
    {
        assert(ls[i as int] == label_view(labels@[i as int]));
        if !is_input_name(&labels[i].0) {
            let lx = labels[i].1;
            let ly = labels[i].2;
            proof {
                assert(label_pos_ok(g@, label_view(labels@[i as int])));
                lemma_row_len(board, ly as int);
            }
            let v = match &labels[i].3 {
                Some(c) => c.copy(),
                None => Cell::Empty,
            };
            let ghost b1 = grid_of(&*board);
            let ghost vv = v@;
            set_cell(board, lx, ly, v);
            proof {
                lemma_put_lens(b1, lx as int, ly as int, vv);
            }
        }
        i = i + 1;
    }
}

impl State {
    /// Resolves the labels of the board (see `resolved`): each named warp
    /// gets the offset to its label written beside it, and each label cell
    /// becomes its initial value or empty.
    pub fn resolve_label(&mut self) -> (r: Result<(), PlanarError>)
        requires
            warps_framed(old(self)@.board),
        ensures
            match r {
                Ok(()) => resolved(old(self)@.board) == Ok::<Seq<Seq<Tile>>, PlanarError>(final(self)@.board)
                    && final(self)@ == (Sim { board: final(self)@.board, ..old(self)@ }),
                Err(e) => resolved(old(self)@.board) == Err::<Seq<Seq<Tile>>, PlanarError>(e),
            },
    {
        let ghost s0 = self@;
        proof {
            self.lemma_views();
        }
        let ghost g = s0.board;
        let (labels, refs) = scan_labels(&self.board.0);
        let ghost ls = labels@.map_values(|l: (String, usize, usize, Option<Cell>)| label_view(l));
        let ghost rs = refs@.map_values(|x: (String, usize, usize)| ref_view(x));
        proof {
            lemma_scan_positions(g, g.len() as int, 0);
            assert forall|k: int| 0 <= k < labels.len() implies label_pos_ok(g, #[trigger] label_view(labels@[k])) by {
                assert(ls[k] == label_view(labels@[k]));
            }
            assert forall|k: int| 0 <= k < refs.len() implies ref_pos_ok(g, #[trigger] ref_view(refs@[k])) by {
                assert(rs[k] == ref_view(refs@[k]));
            }
        }
        if has_unused(&labels, &refs) {
            return Err(PlanarError::UnusedLabel);
        }
        if !write_offsets(&mut self.board.0, &labels, &refs, Ghost(g)) {
            return Err(PlanarError::LabelNotFound);
        }
        clear_labels(&mut self.board.0, &labels, Ghost(g));
        proof {
            self.lemma_views();
        }
        Ok(())
    }
}

impl State {
    /// Whether the labels of the board can be resolved in place (see
    /// `warps_framed`).
    pub fn labels_framed(&self) -> (r: bool)
        ensures
            r == warps_framed(self@.board),
    {
        proof {
            self.lemma_views();
        }
        let ghost g = self@.board;
        let b = &self.board.0;
        if b.len() >= 2147483647 {
            return false;
        }
        let mut y: usize = 0;
        let mut ok = true;
        while y < b.len()
            invariant
                y <= b.len(),
                g == grid_of(b),
                b.len() < i32::MAX,
                ok <==> (forall|k: int| 0 <= k < y ==> (#[trigger] g[k]).len() < i32::MAX)
                    && (forall|k: int, x: int|
                    0 <= k < y && 0 <= x < g[k].len() && #[trigger] g[k][x] is Warp && g[k][x]->Warp_0 != "_"@
                        ==> 1 <= x && x + 1 < g[k].len()),
            decreases b.len() - y,
        {
            let row = &b[y];
            proof {
                lemma_row_len(b, y as int);
                assert(g[y as int] == row@.map_values(|c: Cell| c@));
            }
            if row.len() >= 2147483647 {
                ok = false;
            }
            let mut x: usize = 0;
            let mut row_ok = true;
            while x < row.len()
                invariant
                    x <= row.len(),
                    g[y as int] == row@.map_values(|c: Cell| c@),
                    row_ok <==> forall|xx: int|
                        0 <= xx < x && #[trigger] g[y as int][xx] is Warp && g[y as int][xx]->Warp_0 != "_"@
                            ==> 1 <= xx && xx + 1 < g[y as int].len(),
                decreases row.len() - x,
            {
                assert(g[y as int][x as int] == row@[x as int]@);
                if let Cell::Warp(c) = &row[x] {
                    if !crate::text::str_eq(c.as_str(), "_") && !(1 <= x && x + 1 < row.len()) {
                        row_ok = false;
                    }
                }
                x = x + 1;
            }
            if !row_ok {
                ok = false;
            }
            y = y + 1;
        }
        ok
    }

    /// Whether the score can be computed in `i32` (see `score`).
    pub fn score_in_range(&self) -> (r: bool)
        ensures
            r == (i32::MIN <= self@.max_x - self@.min_x < i32::MAX && i32::MIN <= self@.max_y - self@.min_y
                < i32::MAX && self@.max_tick + 1 <= i32::MAX && i32::MIN <= (self@.max_x - self@.min_x + 1)
                * (self@.max_y - self@.min_y + 1) <= i32::MAX && i32::MIN <= (self@.max_x - self@.min_x + 1)
                * (self@.max_y - self@.min_y + 1) * (self@.max_tick + 1) <= i32::MAX),
    {
        let x = self.max_x as i128 - self.min_x as i128 + 1;
        let y = self.max_y as i128 - self.min_y as i128 + 1;
        let t = self.max_tick as i128 + 1;
        assert(-0x10_0000_0000_0000_0000 <= x * y <= 0x10_0000_0000_0000_0000) by (nonlinear_arith)
            requires
                -0x1_0000_0001 <= x <= 0x1_0000_0001,
                -0x1_0000_0001 <= y <= 0x1_0000_0001,
        ;
        let xy = x * y;
        assert(-0x1000_0000_0000_0000_0000_0000_0000 <= xy * t <= 0x1000_0000_0000_0000_0000_0000_0000) by (nonlinear_arith)
            requires
                -0x10_0000_0000_0000_0000 <= xy <= 0x10_0000_0000_0000_0000,
                -0x1_0000_0001 <= t <= 0x1_0000_0001,
        ;
        let xyt = xy * t;
        x - 1 >= i32::MIN as i128 && x <= i32::MAX as i128 && y - 1 >= i32::MIN as i128 && y <= i32::MAX as i128
            && t <= i32::MAX as i128 && xy >= i32::MIN as i128 && xy <= i32::MAX as i128 && xyt >= i32::MIN as i128
            && xyt <= i32::MAX as i128
    }
}

/// An arithmetic cell at `(x, y)` with a value `p` left of it and a value
/// `q` above it writes, right of it and below it, `p + q`, `p - q` (the
/// left operand minus the upper one), `p * q`, and, for a nonzero `q`, the
/// quotient and remainder of `p` by `q` rounded toward zero; a division by
/// zero fails.
pub proof fn law_arith_operands(old: Seq<Seq<Tile>>, a: int, b: int, t0: Tick, x: int, y: int)
    requires
        g_readable(old, x - 1, y),
        g_readable(old, x, y - 1),
    ensures
        t0.new[y][x] == Tile::Plus ==> arith_tile(old, a, b, t0, x, y) == emit_pair(
            touch(t0, x, y),
            x,
            y,
            Tile::Number(value_at(old, a, b, x - 1, y) + value_at(old, a, b, x, y - 1)),
            Tile::Number(value_at(old, a, b, x - 1, y) + value_at(old, a, b, x, y - 1)),
        ),
        t0.new[y][x] == Tile::Minus ==> arith_tile(old, a, b, t0, x, y) == emit_pair(
            touch(t0, x, y),
            x,
            y,
            Tile::Number(value_at(old, a, b, x - 1, y) - value_at(old, a, b, x, y - 1)),
            Tile::Number(value_at(old, a, b, x - 1, y) - value_at(old, a, b, x, y - 1)),
        ),
        t0.new[y][x] == Tile::Mul ==> arith_tile(old, a, b, t0, x, y) == emit_pair(
            touch(t0, x, y),
            x,
            y,
            Tile::Number(value_at(old, a, b, x - 1, y) * value_at(old, a, b, x, y - 1)),
            Tile::Number(value_at(old, a, b, x - 1, y) * value_at(old, a, b, x, y - 1)),
        ),
        t0.new[y][x] == Tile::Div && value_at(old, a, b, x, y - 1) != 0 ==> arith_tile(old, a, b, t0, x, y)
            == emit_pair(
            touch(t0, x, y),
            x,
            y,
            Tile::Number(trunc_div(value_at(old, a, b, x - 1, y), value_at(old, a, b, x, y - 1))),
            Tile::Number(trunc_div(value_at(old, a, b, x - 1, y), value_at(old, a, b, x, y - 1))),
        ),
        t0.new[y][x] == Tile::Rem && value_at(old, a, b, x, y - 1) != 0 ==> arith_tile(old, a, b, t0, x, y)
            == emit_pair(
            touch(t0, x, y),
            x,
            y,
            Tile::Number(trunc_rem(value_at(old, a, b, x - 1, y), value_at(old, a, b, x, y - 1))),
            Tile::Number(trunc_rem(value_at(old, a, b, x - 1, y), value_at(old, a, b, x, y - 1))),
        ),
        (t0.new[y][x] == Tile::Div || t0.new[y][x] == Tile::Rem) && value_at(old, a, b, x, y - 1) == 0
            ==> arith_tile(old, a, b, t0, x, y) == Err::<Tick, PlanarError>(PlanarError::DivisionByZero),
{
}

/// The board being written is a rectangle, and the marks of written cells
/// have its shape.
pub open spec fn tick_rect(t: Tick) -> bool {
    &&& t.new.len() > 0
    &&& t.written.len() == t.new.len()
    &&& forall|r: int|
        0 <= r < t.new.len() ==> (#[trigger] t.new[r]).len() == t.new[0].len() && t.written[r].len() == t.new[0].len()
}

proof fn lemma_write_keeps(t: Tick, x: int, y: int, v: Tile)
    requires
        tick_rect(t),
        g_inside(t.new, x, y),
    ensures
        write_tile(t, x, y, v) matches Ok(t2) && tick_rect(t2) && t2.new[y][x] == v && t2.written[y][x]
            && (forall|i: int, j: int|
            0 <= j < t.new.len() && 0 <= i < t.new[0].len() && !(i == x && j == y) ==> #[trigger] t2.new[j][i]
                == t.new[j][i] && t2.written[j][i] == t.written[j][i]),
{
    let t2 = write_tile(t, x, y, v).unwrap();
    assert forall|r: int| 0 <= r < t2.new.len() implies (#[trigger] t2.new[r]).len() == t2.new[0].len()
        && t2.written[r].len() == t2.new[0].len() by {
        assert(t.new[r].len() == t.new[0].len());
        assert(t.new[y].len() == t.new[0].len());
    }
}

proof fn lemma_clear_keeps(t: Tick, x: int, y: int)
    requires
        tick_rect(t),
    ensures
        clear_if_free(t, x, y) matches Ok(t2) && tick_rect(t2) && (forall|i: int, j: int|
            0 <= j < t.new.len() && 0 <= i < t.new[0].len() && !(i == x && j == y) ==> #[trigger] t2.new[j][i]
                == t.new[j][i] && t2.written[j][i] == t.written[j][i]),
{
    if t_writable(t, x, y) {
        let t2 = raw_tile(t, x, y, Tile::Empty).unwrap();
        assert forall|r: int| 0 <= r < t2.new.len() implies (#[trigger] t2.new[r]).len() == t2.new[0].len()
            && t2.written[r].len() == t2.new[0].len() by {
            assert(t.new[r].len() == t.new[0].len());
            assert(t.new[y].len() == t.new[0].len());
        }
    }
}

/// A cell that emits writes its first value right of it and its second
/// below it, when both are free.
pub proof fn law_emit_pair_places(t: Tick, x: int, y: int, right: Tile, down: Tile)
    requires
        tick_rect(t),
        t_writable(t, x + 1, y),
        t_writable(t, x, y + 1),
    ensures
        emit_pair(t, x, y, right, down) matches Ok(t4) && t4.new[y][x + 1] == right && t4.new[y + 1][x] == down,
{
    lemma_write_keeps(t, x + 1, y, right);
    let t1 = write_tile(t, x + 1, y, right).unwrap();
    assert(t_writable(t1, x, y + 1));
    lemma_write_keeps(t1, x, y + 1, down);
    let t2 = write_tile(t1, x, y + 1, down).unwrap();
    assert(t2.new[y][x + 1] == right);
    lemma_clear_keeps(t2, x - 1, y);
    let t3 = clear_if_free(t2, x - 1, y).unwrap();
    assert(t3.new[y][x + 1] == right && t3.new[y + 1][x] == down);
    lemma_clear_keeps(t3, x, y - 1);
}

/// A comparison cell with non-empty cells `p` left of it and `q` above it:
/// `=` when they are equal, and `#` when they differ, emits the upper one
/// `q` right of it and the left one `p` below it; otherwise it does
/// nothing.
pub proof fn law_compare(old: Seq<Seq<Tile>>, t: Tick, x: int, y: int)
    requires
        !g_empty(old, x - 1, y),
        !g_empty(old, x, y - 1),
    ensures
        t.new[y][x] == Tile::Eq && tile_or_empty(old, x - 1, y) == tile_or_empty(old, x, y - 1) ==> comp_tile(
            old,
            t,
            x,
            y,
        ) == emit_pair(t, x, y, tile_or_empty(old, x, y - 1), tile_or_empty(old, x - 1, y)),
        t.new[y][x] == Tile::Eq && tile_or_empty(old, x - 1, y) != tile_or_empty(old, x, y - 1) ==> comp_tile(
            old,
            t,
            x,
            y,
        ) == Ok::<Tick, PlanarError>(t),
        t.new[y][x] == Tile::Neq && tile_or_empty(old, x - 1, y) != tile_or_empty(old, x, y - 1) ==> comp_tile(
            old,
            t,
            x,
            y,
        ) == emit_pair(t, x, y, tile_or_empty(old, x, y - 1), tile_or_empty(old, x - 1, y)),
        t.new[y][x] == Tile::Neq && tile_or_empty(old, x - 1, y) == tile_or_empty(old, x, y - 1) ==> comp_tile(
            old,
            t,
            x,
            y,
        ) == Ok::<Tick, PlanarError>(t),
{
}

/// A move cell carries the value behind it one cell past it in its
/// direction: `>` from the left to the right, `<` from the right to the
/// left, `^` from below to above, `v` from above to below.
pub proof fn law_move_cells(old: Seq<Seq<Tile>>, a: int, b: int, t: Tick, x: int, y: int, dx: int, dy: int)
    requires
        tick_rect(t),
        (t.new[y][x] == Tile::Right && dx == 1 && dy == 0) || (t.new[y][x] == Tile::Left && dx == -1 && dy == 0) || (
        t.new[y][x] == Tile::Up && dx == 0 && dy == -1) || (t.new[y][x] == Tile::Down && dx == 0 && dy == 1),
        g_inside(t.new, x - dx, y - dy),
        g_readable(old, x - dx, y - dy),
        t_writable(t, x + dx, y + dy),
    ensures
        cell_action(old, a, b, t, x, y) matches Ok(t2) && t2.new[y + dy][x + dx] == Tile::Number(
            value_at(old, a, b, x - dx, y - dy),
        ),
{
    reveal(cell_action);
    let tt = touch(t, x, y);
    assert(tick_rect(tt));
    lemma_write_keeps(tt, x + dx, y + dy, Tile::Number(value_at(old, a, b, x - dx, y - dy)));
    let t2 = write_tile(tt, x + dx, y + dy, Tile::Number(value_at(old, a, b, x - dx, y - dy))).unwrap();
    lemma_clear_keeps(t2, x - dx, y - dy);
}

/// A warp cell at `(x, y)` with values on all four sides asks to write the
/// value above it, `dt` ticks back where `dt` is the value below it, at the
/// cell `dx` to the left and `dy` up of it, where `dx` is the value left of
/// it and `dy` the value right of it; the cells `A` and `B` take the inputs
/// `a` and `b`.
pub proof fn law_warp_and_inputs(old: Seq<Seq<Tile>>, a: int, b: int, t: Tick, x: int, y: int)
    requires
        g_readable(old, x - 1, y),
        g_readable(old, x, y - 1),
        g_readable(old, x + 1, y),
        g_readable(old, x, y + 1),
        fits_i32(value_at(old, a, b, x - 1, y)),
        fits_i32(value_at(old, a, b, x + 1, y)),
        fits_i32(value_at(old, a, b, x, y + 1)),
        fits_i32(x - value_at(old, a, b, x - 1, y)),
        fits_i32(y - value_at(old, a, b, x + 1, y)),
    ensures
        warp_tile(old, a, b, t, x, y) == Ok::<Tick, PlanarError>(
            Tick {
                warps: t.warps.push(
                    (
                        value_at(old, a, b, x, y + 1),
                        x - value_at(old, a, b, x - 1, y),
                        y - value_at(old, a, b, x + 1, y),
                        value_at(old, a, b, x, y - 1),
                    ),
                ),
                ..t
            },
        ),
        0 <= y < t.new.len() && 0 <= x < t.new[y].len() && t.new[y][x] == Tile::InputA ==> (cell_action(
            old,
            a,
            b,
            t,
            x,
            y,
        ) matches Ok(t2) && t2.new[y][x] == Tile::Number(a)),
        0 <= y < t.new.len() && 0 <= x < t.new[y].len() && t.new[y][x] == Tile::InputB ==> (cell_action(
            old,
            a,
            b,
            t,
            x,
            y,
        ) matches Ok(t2) && t2.new[y][x] == Tile::Number(b)),
{
    reveal(cell_action);
}

} // verus!
