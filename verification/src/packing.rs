//! Lambda-Man routes packed into one integer, two bits a move, so that a
//! short program can unpack them.
use vstd::prelude::*;

use crate::bignum::BigNum;
use crate::text::chars_of;

verus! {

/// `c` is a move: `L`, `R`, `U` or `D`.
pub open spec fn is_move_char(c: char) -> bool {
    c == 'L' || c == 'R' || c == 'U' || c == 'D'
}

/// The two-bit code of a move: `L` 0, `R` 1, `U` 2, `D` 3.
pub open spec fn move_code(c: char) -> int {
    if c == 'L' {
        0
    } else if c == 'R' {
        1
    } else if c == 'U' {
        2
    } else {
        3
    }
}

/// The moves of `s` packed in base 4 above `base`: the first move in the
/// lowest digit.
pub open spec fn packed(s: Seq<char>, base: int) -> int
    decreases s.len(),
{
    if s.len() == 0 {
        base
    } else {
        packed(s.drop_first(), base) * 4 + move_code(s[0])
    }
}

/// The packed route: a route that ends in `L` gets a leading digit 1, so
/// that its final `L` (digit 0) survives the packing.
pub open spec fn compressed(s: Seq<char>) -> int {
    packed(
        s,
        if s.len() > 0 && s.last() == 'L' {
            1
        } else {
            0
        },
    )
}

/// Packs a route of moves into one integer (see `compressed`).
pub fn compress(sol: &str) -> (r: BigNum)
    requires
        forall|i: int| 0 <= i < sol@.len() ==> is_move_char(#[trigger] sol@[i]),
    ensures
        r@ == compressed(sol@),
{
    let cs = chars_of(sol);
    let four = BigNum::from_i64(4);
    let mut ret = BigNum::zero();
    if cs.len() > 0 && cs[cs.len() - 1] == 'L' {
        let one = BigNum::from_i64(1);
        ret = ret.mul(&four).add(&one);
    }
    let ghost base = ret@;
    let mut i = cs.len();
    assert(cs@.skip(i as int) =~= Seq::<char>::empty());
    while i > 0
        invariant
            i <= cs.len(),
            cs@ == sol@,
            four@ == 4,
            forall|k: int| 0 <= k < cs@.len() ==> is_move_char(#[trigger] cs@[k]),
            ret@ == packed(cs@.skip(i as int), base),
        decreases i,
    {
        i = i - 1;
        let c = cs[i];
        let code: i64 = if c == 'L' {
            0
        } else if c == 'R' {
            1
        } else if c == 'U' {
            2
        } else {
            3
        };
        let d = BigNum::from_i64(code);
        ret = ret.mul(&four).add(&d);
        assert(cs@.skip(i as int).drop_first() =~= cs@.skip(i + 1));
        assert(cs@.skip(i as int)[0] == c);
    }
    assert(cs@.skip(0) =~= cs@);
    ret
}

} // verus!
