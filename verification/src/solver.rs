use vstd::prelude::*;

use crate::base94::{
    decode_base94, decode_char, encode_base94, encode_str, encodable, encoded, lemma_encoded_digits,
    numeral_value, ALPHABET,
};
use crate::bignum::{trunc_div, trunc_rem};
use crate::eval::{int_text, str_value};
use crate::text::{chars_of, push_char, reversed};

verus! {

/// The index of a lower-case variable name: its first letter, counted from
/// `a`.
pub fn varid(s: &str) -> (r: usize)
    requires
        s@.len() > 0,
        'a' as u32 <= s@[0] as u32,
    ensures
        r == s@[0] as u32 - 'a' as u32,
{
    let cs = chars_of(s);
    (cs[0] as u32 - 'a' as u32) as usize
}

/// The numbers that `str-to-int` computes on the way stay within `i64`.
pub open spec fn str_value_fits(s: Seq<char>) -> bool {
    forall|k: int| 0 <= k <= s.len() ==> #[trigger] numeral_value(encoded(s).take(k)) <= i64::MAX
}

/// The integer that a string of the alphabet stands for, in machine integers.
pub fn str_to_int(s: &str) -> (r: i64)
    requires
        encodable(s@),
        str_value_fits(s@),
    ensures
        r == str_value(s@),
{
    let t = match encode_str(s) {
        Ok(t) => t,
        Err(_) => String::new(),
    };
    proof {
        lemma_encoded_digits(s@);
    }
    let cs = chars_of(t.as_str());
    let ghost e = encoded(s@);
    let mut ret: i64 = 0;
    let mut i: usize = 0;
    while i < cs.len()
        invariant
            cs@ == e,
            e == encoded(s@),
            e.len() == s@.len(),
            forall|j: int| 0 <= j < e.len() ==> crate::base94::is_digit(#[trigger] e[j]),
            str_value_fits(s@),
            i <= cs.len(),
            ret == numeral_value(e.take(i as int)),
        decreases cs.len() - i,
    {
        let c = cs[i];
        assert(e.take(i + 1).drop_last() =~= e.take(i as int));
        assert(numeral_value(e.take(i + 1)) <= i64::MAX);
        proof {
            crate::base94::lemma_numeral_value_nonneg(e.take(i as int));
        }
        let d = match decode_base94(c) {
            Ok(d) => d,
            Err(_) => 0,
        };
        ret = ret * 94 + d;
        i = i + 1;
    }
    assert(e.take(e.len() as int) =~= e);
    ret
}

/// The string of the alphabet that a machine integer stands for (empty for
/// numbers below one).
pub fn int_to_str(n: i64) -> (r: String)
    ensures
        r@ == int_text(n as int),
{
    let mut rev: Vec<char> = Vec::new();
    let mut m = n;
    while m > 0
        invariant
            m > 0 ==> int_text(n as int) == int_text(m as int) + reversed(rev@),
            m <= 0 ==> int_text(n as int) == reversed(rev@),
        decreases if m > 0 {
            m as int
        } else {
            0
        },
    {
        let d = match encode_base94(m % 94) {
            Ok(d) => d,
            Err(_) => '!',
        };
        let c = match decode_char(d) {
            Ok(c) => c,
            Err(_) => ' ',
        };
        assert(c == ALPHABET@[(m % 94) as int]);
        let ghost old_rev = rev@;
        rev.push(c);
        proof {
            assert(reversed(rev@) =~= seq![c] + reversed(old_rev));
            assert(int_text(m as int) == int_text(m / 94).push(c));
            if m / 94 > 0 {
                assert(int_text(m as int) + reversed(old_rev) =~= int_text((m / 94) as int)
                    + reversed(rev@));
            } else {
                assert(int_text((m / 94) as int) =~= Seq::<char>::empty());
                assert(int_text(m as int) + reversed(old_rev) =~= reversed(rev@));
            }
        }
        m = m / 94;
    }
    let mut r = String::new();
    let mut k = rev.len();
    while k > 0
        invariant
            k <= rev.len(),
            r@ =~= reversed(rev@).take(rev.len() - k),
        decreases k,
    {
        k = k - 1;
        push_char(&mut r, rev[k]);
        assert(r@ =~= reversed(rev@).take(rev.len() - k));
    }
    assert(reversed(rev@).take(rev.len() as int) =~= reversed(rev@));
    r
}

/// The move of a remainder: `0` up, `1` down, `2` left, `3` right, `_` for the
/// negative remainders of negative numbers.
pub open spec fn move_char(r: int) -> char {
    if r == 0 {
        'U'
    } else if r == 1 {
        'D'
    } else if r == 2 {
        'L'
    } else if r == 3 {
        'R'
    } else {
        '_'
    }
}

/// `l` moves read from `s` in base 4, lowest digit first.
pub open spec fn move_sequence(s: int, l: nat) -> Seq<char>
    decreases l,
{
    if l == 0 {
        Seq::empty()
    } else {
        seq![move_char(trunc_rem(s, 4))] + move_sequence(trunc_div(s, 4), (l - 1) as nat)
    }
}

/// `l` moves read from `s` in base 4, lowest digit first.
pub fn get_sequence(s: i32, l: usize) -> (r: String)
    ensures
        r@ == move_sequence(s as int, l as nat),
{
    let mut res = String::new();
    let mut s = s;
    let ghost s0 = s as int;
    let mut i: usize = 0;
    while i < l
        invariant
            i <= l,
            res@ + move_sequence(s as int, (l - i) as nat) == move_sequence(s0, l as nat),
        decreases l - i,
    {
        let q = s / 4;
        let r = s % 4;
        assert(q == trunc_div(s as int, 4) && r == trunc_rem(s as int, 4)) by {
            if s >= 0 {
                assert(q == s / 4);
            }
        }
        let c = if r == 0 {
            'U'
        } else if r == 1 {
            'D'
        } else if r == 2 {
            'L'
        } else if r == 3 {
            'R'
        } else {
            '_'
        };
        let ghost before = res@;
        push_char(&mut res, c);
        assert(res@ + move_sequence(q as int, (l - i - 1) as nat) =~= before + move_sequence(
            s as int,
            (l - i) as nat,
        ));
        s = q;
        i = i + 1;
    }
    assert(res@ + move_sequence(s as int, 0) =~= res@);
    res
}

} // verus!
