//! Base-94 digits and the string alphabet of the ICFP expression language.
//!
//! A digit is one of the 94 printable ASCII characters `!` .. `~`; its value is
//! its code minus 33. Strings are written with the same digits, through the
//! alphabet `ALPHABET`: digit `d` stands for `ALPHABET[d]`.
use vstd::prelude::*;

use crate::text::{chars_of, push_char, reversed, string_of};

verus! {

/// Why a base-94 conversion failed.
#[derive(Debug, Clone, Copy, PartialEq, Eq)]
pub enum Base94Error {
    /// The character is not a base-94 digit (`!` .. `~`).
    InvalidDigit(char),
    /// The number is not in `0 .. 94`.
    InvalidNumber(i64),
    /// The character is not in the string alphabet.
    InvalidChar(char),
    /// A negative number has no base-94 numeral.
    Negative(i64),
}

/// The string alphabet: digit `d` of an encoded string stands for `ALPHABET[d]`.
pub const ALPHABET: [char; 94] = [
    'a', 'b', 'c', 'd', 'e', 'f', 'g', 'h', 'i', 'j', 'k', 'l', 'm', 'n', 'o', 'p', 'q', 'r',
    's', 't', 'u', 'v', 'w', 'x', 'y', 'z', 'A', 'B', 'C', 'D', 'E', 'F', 'G', 'H', 'I', 'J',
    'K', 'L', 'M', 'N', 'O', 'P', 'Q', 'R', 'S', 'T', 'U', 'V', 'W', 'X', 'Y', 'Z', '0', '1',
    '2', '3', '4', '5', '6', '7', '8', '9', '!', '"', '#', '$', '%', '&', '\'', '(', ')', '*',
    '+', ',', '-', '.', '/', ':', ';', '<', '=', '>', '?', '@', '[', '\\', ']', '^', '_', '`',
    '|', '~', ' ', '\n',
];

/// `c` is a base-94 digit.
pub open spec fn is_digit(c: char) -> bool {
    33 <= c as u32 && c as u32 <= 126
}

/// The value of the digit `c`.
pub open spec fn digit_value(c: char) -> int {
    c as u32 - 33
}

/// The digit whose value is `n` (for `0 <= n < 94`).
pub open spec fn digit_of(n: int) -> char {
    (n + 33) as char
}

/// The low byte of a character's code: what a cast to `u8` keeps.
pub open spec fn low_byte(c: char) -> int {
    (c as u32 as int) % 256
}

/// The alphabet entry `i` matches the byte `b`, and no earlier entry does.
pub open spec fn first_match(b: int, i: int) -> bool {
    &&& 0 <= i < 94
    &&& ALPHABET@[i] as u32 as int == b
    &&& forall|j: int| 0 <= j < i ==> ALPHABET@[j] as u32 as int != b
}

/// Some alphabet entry matches the byte `b`.
pub open spec fn in_alphabet(b: int) -> bool {
    exists|i: int| 0 <= i < 94 && ALPHABET@[i] as u32 as int == b
}

/// The value of a string of digits, most significant first.
pub open spec fn numeral_value(s: Seq<char>) -> int
    decreases s.len(),
{
    if s.len() == 0 {
        0
    } else {
        numeral_value(s.drop_last()) * 94 + digit_value(s.last())
    }
}

/// All characters of `s` are digits.
pub open spec fn all_digits(s: Seq<char>) -> bool {
    forall|i: int| 0 <= i < s.len() ==> is_digit(#[trigger] s[i])
}

/// The index of the first character of `s` that is not a digit, or `s.len()`.
pub open spec fn first_non_digit(s: Seq<char>) -> int
    decreases s.len(),
{
    if s.len() == 0 {
        0
    } else if !is_digit(s[0]) {
        0
    } else {
        1 + first_non_digit(s.drop_first())
    }
}

/// The base-94 numeral of `n`: no leading zero digit, and `!` for zero.
pub open spec fn numeral_of(n: nat) -> Seq<char>
    decreases n,
{
    if n < 94 {
        seq![digit_of(n as int)]
    } else {
        numeral_of(n / 94).push(digit_of((n % 94) as int))
    }
}

/// Decoded string: each digit replaced by its alphabet entry.
pub open spec fn decoded(s: Seq<char>) -> Seq<char> {
    s.map_values(|c: char| ALPHABET@[digit_value(c)])
}

/// Reads a base-94 digit.
pub fn decode_base94(c: char) -> (r: Result<i64, Base94Error>)
    ensures
        is_digit(c) ==> r == Ok::<i64, Base94Error>(digit_value(c) as i64),
        !is_digit(c) ==> r == Err::<i64, Base94Error>(Base94Error::InvalidDigit(c)),
{
    let u = c as u32;
    if 33 <= u && u <= 126 {
        Ok(u as i64 - 33)
    } else {
        Err(Base94Error::InvalidDigit(c))
    }
}

/// Writes a number in `0 .. 94` as a base-94 digit.
pub fn encode_base94(n: i64) -> (r: Result<char, Base94Error>)
    ensures
        0 <= n < 94 ==> r == Ok::<char, Base94Error>(digit_of(n as int)),
        !(0 <= n < 94) ==> r == Err::<char, Base94Error>(Base94Error::InvalidNumber(n)),
{
    if n < 0 || n >= 94 {
        return Err(Base94Error::InvalidNumber(n));
    }
    let b = (n + 33) as u8;
    Ok(b as char)
}

/// Reads a base-94 digit (the solver's name for `decode_base94`).
pub fn base94(c: char) -> (r: Result<i64, Base94Error>)
    ensures
        is_digit(c) ==> r == Ok::<i64, Base94Error>(digit_value(c) as i64),
        !is_digit(c) ==> r == Err::<i64, Base94Error>(Base94Error::InvalidDigit(c)),
{
    decode_base94(c)
}

/// Writes a number in `0 .. 94` as a base-94 digit (the solver's name for
/// `encode_base94`).
pub fn base94enc(n: i64) -> (r: Result<char, Base94Error>)
    ensures
        0 <= n < 94 ==> r == Ok::<char, Base94Error>(digit_of(n as int)),
        !(0 <= n < 94) ==> r == Err::<char, Base94Error>(Base94Error::InvalidNumber(n)),
{
    encode_base94(n)
}

/// Decodes one character of an encoded string (the solver's name for
/// `decode_char`).
pub fn base94_char(c: char) -> (r: Result<char, Base94Error>)
    ensures
        is_digit(c) ==> r == Ok::<char, Base94Error>(ALPHABET@[digit_value(c)]),
        !is_digit(c) ==> r == Err::<char, Base94Error>(Base94Error::InvalidDigit(c)),
{
    decode_char(c)
}

/// Decodes one character of an encoded string.
pub fn decode_char(c: char) -> (r: Result<char, Base94Error>)
    ensures
        is_digit(c) ==> r == Ok::<char, Base94Error>(ALPHABET@[digit_value(c)]),
        !is_digit(c) ==> r == Err::<char, Base94Error>(Base94Error::InvalidDigit(c)),
{
    match decode_base94(c) {
        Ok(i) => Ok(ALPHABET[i as usize]),
        Err(e) => Err(e),
    }
}

/// Encodes one character of a string: the digit of the first alphabet entry
/// whose code equals the low byte of `c`'s code.
pub fn encode_char(c: char) -> (r: Result<char, Base94Error>)
    ensures
        in_alphabet(low_byte(c)) ==> r == Ok::<char, Base94Error>(encoded_char(c)),
        !in_alphabet(low_byte(c)) ==> r == Err::<char, Base94Error>(Base94Error::InvalidChar(c)),
{
    let b = (c as u32) % 256;
    let mut i: usize = 0;
    while i < 94
        invariant
            i <= 94,
            b as int == low_byte(c),
            forall|j: int| 0 <= j < i ==> ALPHABET@[j] as u32 as int != b,
        decreases 94 - i,
    {
        if ALPHABET[i] as u32 == b {
            let d = (i + 33) as u8;
            assert(first_match(low_byte(c), i as int));
            proof {
                lemma_first_match_unique(low_byte(c), i as int);
            }
            assert((d as char) == digit_of(i as int));
            return Ok(d as char);
        }
        i = i + 1;
    }
    Err(Base94Error::InvalidChar(c))
}

/// The index of the first alphabet entry matching the byte `b`.
pub open spec fn alphabet_index(b: int) -> int {
    choose|i: int| first_match(b, i)
}

/// The digit that encodes `c`.
pub open spec fn encoded_char(c: char) -> char {
    digit_of(alphabet_index(low_byte(c)))
}

/// Every character of `s` can be encoded.
pub open spec fn encodable(s: Seq<char>) -> bool {
    forall|i: int| 0 <= i < s.len() ==> in_alphabet(low_byte(#[trigger] s[i]))
}

/// The encoding of a string whose characters can all be encoded.
pub open spec fn encoded(s: Seq<char>) -> Seq<char> {
    s.map_values(|c: char| encoded_char(c))
}

/// The index of the first character of `s` that cannot be encoded, or `s.len()`.
pub open spec fn first_unencodable(s: Seq<char>) -> int
    decreases s.len(),
{
    if s.len() == 0 {
        0
    } else if !in_alphabet(low_byte(s[0])) {
        0
    } else {
        1 + first_unencodable(s.drop_first())
    }
}

/// Decodes an encoded string, failing at its first character that is not a digit.
pub fn decode_str(s: &str) -> (r: Result<String, Base94Error>)
    ensures
        all_digits(s@) ==> (r matches Ok(t) && t@ == decoded(s@)),
        !all_digits(s@) ==> r == Err::<String, Base94Error>(
            Base94Error::InvalidDigit(s@[first_non_digit(s@)]),
        ),
{
    let cs = chars_of(s);
    let mut out: Vec<char> = Vec::new();
    let mut i: usize = 0;
    while i < cs.len()
        invariant
            cs@ == s@,
            i <= cs.len(),
            all_digits(cs@.take(i as int)),
            out@ == decoded(cs@.take(i as int)),
        decreases cs.len() - i,
    {
        match decode_char(cs[i]) {
            Ok(d) => {
                out.push(d);
                assert(cs@.take(i + 1) == cs@.take(i as int).push(cs@[i as int]));
            },
            Err(e) => {
                proof {
                    lemma_first_non_digit(cs@, i as int);
                }
                return Err(e);
            },
        }
        i = i + 1;
    }
    assert(cs@.take(cs.len() as int) == cs@);
    Ok(string_of(&out))
}

/// Encodes a string, failing at its first character outside the alphabet.
pub fn encode_str(s: &str) -> (r: Result<String, Base94Error>)
    ensures
        encodable(s@) ==> (r matches Ok(t) && t@ == encoded(s@)),
        !encodable(s@) ==> r == Err::<String, Base94Error>(
            Base94Error::InvalidChar(s@[first_unencodable(s@)]),
        ),
{
    let cs = chars_of(s);
    let mut out: Vec<char> = Vec::new();
    let mut i: usize = 0;
    while i < cs.len()
        invariant
            cs@ == s@,
            i <= cs.len(),
            encodable(cs@.take(i as int)),
            out@ == encoded(cs@.take(i as int)),
        decreases cs.len() - i,
    {
        match encode_char(cs[i]) {
            Ok(d) => {
                out.push(d);
                assert(cs@.take(i + 1) == cs@.take(i as int).push(cs@[i as int]));
                assert(out@ =~= encoded(cs@.take(i + 1)));
            },
            Err(e) => {
                proof {
                    lemma_first_unencodable(cs@, i as int);
                }
                return Err(e);
            },
        }
        i = i + 1;
    }
    assert(cs@.take(cs.len() as int) == cs@);
    Ok(string_of(&out))
}

/// Reads a base-94 numeral, most significant digit first.
///
/// The empty numeral reads as zero. The value of every prefix made of digits
/// must fit in an `i64`.
pub fn decode_base94_int(s: &str) -> (r: Result<i64, Base94Error>)
    requires
        forall|k: int|
            0 <= k <= s@.len() && all_digits(#[trigger] s@.take(k)) ==> numeral_value(s@.take(k))
                <= i64::MAX,
    ensures
        all_digits(s@) ==> r == Ok::<i64, Base94Error>(numeral_value(s@) as i64),
        !all_digits(s@) ==> r == Err::<i64, Base94Error>(
            Base94Error::InvalidDigit(s@[first_non_digit(s@)]),
        ),
{
    let cs = chars_of(s);
    let mut ret: i64 = 0;
    let mut i: usize = 0;
    while i < cs.len()
        invariant
            cs@ == s@,
            i <= cs.len(),
            all_digits(cs@.take(i as int)),
            0 <= ret,
            ret as int == numeral_value(cs@.take(i as int)),
            forall|k: int|
                0 <= k <= s@.len() && all_digits(#[trigger] s@.take(k)) ==> numeral_value(
                    s@.take(k),
                ) <= i64::MAX,
        decreases cs.len() - i,
    {
        match decode_base94(cs[i]) {
            Ok(d) => {
                let ghost next = cs@.take(i + 1);
                assert(next.drop_last() == cs@.take(i as int));
                assert(all_digits(next));
                assert(numeral_value(next) == ret * 94 + d);
                assert(numeral_value(next) <= i64::MAX);
                ret = ret * 94 + d;
            },
            Err(e) => {
                proof {
                    lemma_first_non_digit(cs@, i as int);
                }
                return Err(e);
            },
        }
        i = i + 1;
    }
    assert(cs@.take(cs.len() as int) == cs@);
    Ok(ret)
}

/// Writes a non-negative number as a base-94 numeral.
pub fn encode_base94_int(n: i64) -> (r: Result<String, Base94Error>)
    ensures
        n >= 0 ==> (r matches Ok(t) && t@ == numeral_of(n as nat)),
        n < 0 ==> r == Err::<String, Base94Error>(Base94Error::Negative(n)),
{
    if n < 0 {
        return Err(Base94Error::Negative(n));
    }
    let mut rev: Vec<char> = Vec::new();
    let mut m = n;
    loop
        invariant_except_break
            0 <= m <= n,
            numeral_of(n as nat) == numeral_of(m as nat) + reversed(rev@),
        ensures
            numeral_of(n as nat) == reversed(rev@),
        decreases m,
    {
        let d = (m % 94 + 33) as u8;
        let c = d as char;
        assert(c == digit_of((m % 94) as int));
        let ghost old_rev = rev@;
        rev.push(c);
        proof {
            assert(reversed(rev@) =~= seq![c] + reversed(old_rev));
        }
        if m < 94 {
            assert(numeral_of(m as nat) == seq![c]);
            break;
        }
        assert(numeral_of(m as nat) == numeral_of((m / 94) as nat).push(c));
        m = m / 94;
    }
    let out = reversed_vec(&rev);
    Ok(string_of(&out))
}

/// The elements of `v` in the opposite order.
fn reversed_vec(v: &Vec<char>) -> (r: Vec<char>)
    ensures
        r@ == reversed(v@),
{
    let mut r: Vec<char> = Vec::new();
    let mut i = v.len();
    while i > 0
        invariant
            i <= v.len(),
            r@ == reversed(v@.skip(i as int)),
        decreases i,
    {
        i = i - 1;
        proof {
            assert(reversed(v@.skip(i as int)) =~= reversed(v@.skip(i + 1)).push(v@[i as int]));
        }
        r.push(v[i]);
    }
    assert(v@.skip(0) == v@);
    r
}

/// A digit written by `encode_base94` reads back as the same number.
pub proof fn law_digit_roundtrip(n: int)
    requires
        0 <= n < 94,
    ensures
        is_digit(digit_of(n)),
        digit_value(digit_of(n)) == n,
{
}

/// The numeral of a non-negative number is made of digits and reads back as
/// that number: `decode_base94_int` undoes `encode_base94_int`.
pub proof fn law_numeral_roundtrip(n: nat)
    ensures
        all_digits(numeral_of(n)),
        numeral_value(numeral_of(n)) == n,
    decreases n,
{
    if n >= 94 {
        law_numeral_roundtrip(n / 94);
        let s = numeral_of(n);
        assert(s.drop_last() == numeral_of(n / 94));
        assert(s.last() == digit_of((n % 94) as int));
        assert(digit_value(digit_of((n % 94) as int)) == n % 94);
        vstd::arithmetic::div_mod::lemma_fundamental_div_mod(n as int, 94);
        assert(numeral_value(s) == numeral_value(s.drop_last()) * 94 + digit_value(s.last()));
        assert forall|i: int| 0 <= i < s.len() implies is_digit(#[trigger] s[i]) by {
            if i < s.len() - 1 {
                assert(s[i] == numeral_of(n / 94)[i]);
            }
        }
    } else {
        let s = numeral_of(n);
        assert(s.drop_last() =~= Seq::<char>::empty());
        assert(numeral_value(Seq::<char>::empty()) == 0);
        assert(digit_value(digit_of(n as int)) == n);
        assert(numeral_value(s) == numeral_value(s.drop_last()) * 94 + digit_value(s.last()));
    }
}

/// Every prefix of a numeral is itself a numeral of a value no larger than the
/// whole: `decode_base94_int` accepts the numerals of all `i64` values.
pub proof fn law_numeral_prefixes_bounded(n: nat, k: int)
    requires
        0 <= k <= numeral_of(n).len(),
    ensures
        all_digits(numeral_of(n).take(k)),
        numeral_value(numeral_of(n).take(k)) <= n,
    decreases n,
{
    law_numeral_roundtrip(n);
    let s = numeral_of(n);
    if k == s.len() {
        assert(s.take(k) == s);
    } else if n >= 94 {
        assert(s.take(k) == numeral_of(n / 94).take(k));
        law_numeral_prefixes_bounded(n / 94, k);
    } else {
        assert(k == 0);
        assert(numeral_value(s.take(k)) == 0);
    }
}

/// An encoded string decodes back to the original, for strings whose
/// characters are all in the alphabet: `decode_str` undoes `encode_str`.
pub proof fn law_str_roundtrip(s: Seq<char>)
    requires
        encodable(s),
        forall|i: int| 0 <= i < s.len() ==> (#[trigger] s[i]) as u32 <= 255,
    ensures
        all_digits(encoded(s)),
        decoded(encoded(s)) == s,
{
    let t = encoded(s);
    assert forall|i: int| 0 <= i < t.len() implies is_digit(#[trigger] t[i]) by {
        lemma_first_match_exists(low_byte(s[i]));
    }
    assert forall|i: int| 0 <= i < t.len() implies #[trigger] decoded(t)[i] == s[i] by {
        lemma_first_match_exists(low_byte(s[i]));
        let k = alphabet_index(low_byte(s[i]));
        assert(digit_value(t[i]) == k);
        let x: int = s[i] as u32 as int;
        assert(x <= 255);
        assert(0 <= x);
        assert(x % 256 == x) by (nonlinear_arith)
            requires
                0 <= x <= 255,
        ;
        assert(low_byte(s[i]) == x);
        let a = ALPHABET@[k];
        assert(a as u32 == s[i] as u32);
        vstd::utf8::char_u32_cast(a, a as u32);
        vstd::utf8::char_u32_cast(s[i], s[i] as u32);
    }
    assert(decoded(t) =~= s);
}

/// The encoding of an encodable string is made of digits.
pub proof fn lemma_encoded_digits(s: Seq<char>)
    requires
        encodable(s),
    ensures
        all_digits(encoded(s)),
        encoded(s).len() == s.len(),
{
    let t = encoded(s);
    assert forall|i: int| 0 <= i < t.len() implies is_digit(#[trigger] t[i]) by {
        lemma_first_match_exists(low_byte(s[i]));
    }
}

/// A byte that some alphabet entry matches has a first matching entry.
pub proof fn lemma_first_match_exists(b: int)
    requires
        in_alphabet(b),
    ensures
        first_match(b, alphabet_index(b)),
{
    let i = choose|i: int| 0 <= i < 94 && ALPHABET@[i] as u32 as int == b;
    lemma_first_match_below(b, i);
}

proof fn lemma_first_match_below(b: int, i: int)
    requires
        0 <= i < 94,
        ALPHABET@[i] as u32 as int == b,
    ensures
        exists|j: int| first_match(b, j),
    decreases i,
{
    if exists|j: int| 0 <= j < i && ALPHABET@[j] as u32 as int == b {
        let j = choose|j: int| 0 <= j < i && ALPHABET@[j] as u32 as int == b;
        lemma_first_match_below(b, j);
    } else {
        assert(first_match(b, i));
    }
}

/// The first matching entry is unique.
proof fn lemma_first_match_unique(b: int, i: int)
    requires
        first_match(b, i),
    ensures
        alphabet_index(b) == i,
{
    let j = alphabet_index(b);
    assert(first_match(b, j));
    if j < i {
        assert(ALPHABET@[j] as u32 as int != b);
    } else if i < j {
        assert(ALPHABET@[i] as u32 as int != b);
    }
}

proof fn lemma_first_unencodable(s: Seq<char>, i: int)
    requires
        0 <= i < s.len(),
        encodable(s.take(i)),
        !in_alphabet(low_byte(s[i])),
    ensures
        !encodable(s),
        first_unencodable(s) == i,
    decreases i,
{
    if i > 0 {
        assert(in_alphabet(low_byte(s.take(i)[0])));
        assert(s.drop_first().take(i - 1) =~= s.take(i).drop_first());
        lemma_first_unencodable(s.drop_first(), i - 1);
    }
}

/// A numeral made of digits has a non-negative value.
pub proof fn lemma_numeral_value_nonneg(s: Seq<char>)
    requires
        all_digits(s),
    ensures
        numeral_value(s) >= 0,
    decreases s.len(),
{
    if s.len() > 0 {
        let t = s.drop_last();
        assert(all_digits(t)) by {
            assert forall|i: int| 0 <= i < t.len() implies is_digit(#[trigger] t[i]) by {
                assert(t[i] == s[i]);
            }
        }
        lemma_numeral_value_nonneg(t);
        assert(is_digit(s[s.len() - 1]));
    }
}

proof fn lemma_first_non_digit(s: Seq<char>, i: int)
    requires
        0 <= i < s.len(),
        all_digits(s.take(i)),
        !is_digit(s[i]),
    ensures
        !all_digits(s),
        first_non_digit(s) == i,
    decreases i,
{
    if i > 0 {
        assert(is_digit(s.take(i)[0]));
        assert(s.drop_first().take(i - 1) =~= s.take(i).drop_first());
        lemma_first_non_digit(s.drop_first(), i - 1);
    }
}

} // verus!
