//! Arbitrary-precision integers of the expression language.
//!
//! A `BigNum` holds a sign and a magnitude in base 2^32, least significant limb
//! first, the same representation as num-bigint's `to_u32_digits`. Its value is
//! its view. The arithmetic itself is num-bigint's: each operation converts its
//! operands to `num_bigint::BigInt`, applies the operation there, and converts
//! the result back.
use vstd::prelude::*;

use num_bigint::{BigInt, Sign};

use crate::printer::decimal_text;

verus! {

/// An integer: `negative` is its sign, `magnitude` its absolute value in
/// base 2^32, least significant limb first.
#[derive(Debug, Clone, PartialEq, Eq)]
pub struct BigNum {
    pub negative: bool,
    pub magnitude: Vec<u32>,
}

/// The value of limbs in base 2^32, least significant first.
pub open spec fn limbs_value(s: Seq<u32>) -> nat
    decreases s.len(),
{
    if s.len() == 0 {
        0
    } else {
        s[0] as nat + 4294967296 * limbs_value(s.drop_first())
    }
}

impl View for BigNum {
    type V = int;

    open spec fn view(&self) -> int {
        if self.negative {
            -(limbs_value(self.magnitude@) as int)
        } else {
            limbs_value(self.magnitude@) as int
        }
    }
}

/// Quotient of division rounded toward zero.
pub open spec fn trunc_div(a: int, b: int) -> int {
    let q = abs(a) / abs(b);
    if (a >= 0) == (b >= 0) {
        q
    } else {
        -q
    }
}

/// Remainder of division rounded toward zero: it has the sign of `a`.
pub open spec fn trunc_rem(a: int, b: int) -> int {
    a - b * trunc_div(a, b)
}

/// Absolute value.
pub open spec fn abs(a: int) -> int {
    if a < 0 {
        -a
    } else {
        a
    }
}

/// The number that the decimal digits of `s` write, where an underscore may
/// stand anywhere and is passed over; `None` when some character is neither a
/// digit nor an underscore.
pub open spec fn underscored_value(s: Seq<char>) -> Option<int>
    decreases s.len(),
{
    if s.len() == 0 {
        Some(0)
    } else {
        match underscored_value(s.drop_last()) {
            None => None,
            Some(v) => {
                let c = s.last();
                if '0' <= c <= '9' {
                    Some(v * 10 + (c as int - '0' as int))
                } else if c == '_' {
                    Some(v)
                } else {
                    None
                }
            },
        }
    }
}

/// The integer that num-bigint's `FromStr` for `BigInt` reads from `s`: a
/// leading `-` that a `+` does not follow gives the sign; then a leading `+`
/// that another `+` does not follow is dropped; what is left must be
/// nonempty, must not start with an underscore, and holds decimal digits and
/// underscores. `None` when `s` is not of this form.
pub open spec fn bigint_decimal(s: Seq<char>) -> Option<int> {
    let neg = s.len() > 0 && s[0] == '-' && !(s.len() > 1 && s[1] == '+');
    let t = if neg {
        s.drop_first()
    } else {
        s
    };
    let u = if t.len() > 0 && t[0] == '+' && !(t.len() > 1 && t[1] == '+') {
        t.drop_first()
    } else {
        t
    };
    if u.len() == 0 || u[0] == '_' {
        None
    } else {
        match underscored_value(u) {
            Some(v) => Some(
                if neg {
                    -v
                } else {
                    v
                },
            ),
            None => None,
        }
    }
}

impl BigNum {
    /// num-bigint's `str::parse::<BigInt>`: the decimal integer that `s`
    /// writes (see `bigint_decimal`), or `None` when it writes none.
    #[verifier::external_body]
    pub fn from_decimal(s: &str) -> (r: Option<BigNum>)
        ensures
            match bigint_decimal(s@) {
                Some(v) => r matches Some(n) && n@ == v,
                None => r is None,
            },
    {
        match s.parse::<BigInt>() {
            Ok(x) => {
                let (sg, m) = x.to_u32_digits();
                Some(BigNum { negative: sg == Sign::Minus, magnitude: m })
            },
            Err(_) => None,
        }
    }

    /// num-bigint's `to_string` of a `BigInt`: the decimal numeral of the
    /// value, with a minus sign when it is negative.
    #[verifier::external_body]
    pub fn to_decimal(&self) -> (r: String)
        ensures
            r@ == decimal_text(self@),
    {
        BigInt::from_slice(if self.negative { Sign::Minus } else { Sign::Plus }, &self.magnitude).to_string()
    }

    /// Zero.
    pub fn zero() -> (r: BigNum)
        ensures
            r@ == 0,
    {
        BigNum { negative: false, magnitude: Vec::new() }
    }

    /// A copy with the same value.
    pub fn copy(&self) -> (r: BigNum)
        ensures
            r@ == self@,
    {
        let mut m: Vec<u32> = Vec::new();
        let mut i: usize = 0;
        while i < self.magnitude.len()
            invariant
                i <= self.magnitude.len(),
                m@ == self.magnitude@.take(i as int),
            decreases self.magnitude.len() - i,
        {
            m.push(self.magnitude[i]);
            i = i + 1;
        }
        assert(self.magnitude@.take(self.magnitude.len() as int) == self.magnitude@);
        BigNum { negative: self.negative, magnitude: m }
    }

    /// num-bigint's `BigInt::from(i64)`: the same value.
    #[verifier::external_body]
    pub(crate) fn from_i64(n: i64) -> (r: BigNum)
        ensures
            r@ == n,
    {
        let (s, m) = BigInt::from(n).to_u32_digits();
        BigNum { negative: s == Sign::Minus, magnitude: m }
    }

    /// num-bigint's `BigInt::from(u128)`: the same value.
    #[verifier::external_body]
    pub(crate) fn from_u128(n: u128) -> (r: BigNum)
        ensures
            r@ == n,
    {
        let (s, m) = BigInt::from(n).to_u32_digits();
        BigNum { negative: s == Sign::Minus, magnitude: m }
    }

    /// num-bigint's negation `-BigInt`: the opposite value.
    #[verifier::external_body]
    pub(crate) fn neg(&self) -> (r: BigNum)
        ensures
            r@ == -self@,
    {
        let x = BigInt::from_slice(if self.negative { Sign::Minus } else { Sign::Plus }, &self.magnitude);
        let (s, m) = (-x).to_u32_digits();
        BigNum { negative: s == Sign::Minus, magnitude: m }
    }

    /// num-bigint's `BigInt + BigInt`: the sum.
    #[verifier::external_body]
    pub(crate) fn add(&self, other: &BigNum) -> (r: BigNum)
        ensures
            r@ == self@ + other@,
    {
        let x = BigInt::from_slice(if self.negative { Sign::Minus } else { Sign::Plus }, &self.magnitude);
        let y = BigInt::from_slice(if other.negative { Sign::Minus } else { Sign::Plus }, &other.magnitude);
        let (s, m) = (x + y).to_u32_digits();
        BigNum { negative: s == Sign::Minus, magnitude: m }
    }

    /// num-bigint's `BigInt - BigInt`: the difference.
    #[verifier::external_body]
    pub(crate) fn sub(&self, other: &BigNum) -> (r: BigNum)
        ensures
            r@ == self@ - other@,
    {
        let x = BigInt::from_slice(if self.negative { Sign::Minus } else { Sign::Plus }, &self.magnitude);
        let y = BigInt::from_slice(if other.negative { Sign::Minus } else { Sign::Plus }, &other.magnitude);
        let (s, m) = (x - y).to_u32_digits();
        BigNum { negative: s == Sign::Minus, magnitude: m }
    }

    /// num-bigint's `BigInt * BigInt`: the product.
    #[verifier::external_body]
    pub(crate) fn mul(&self, other: &BigNum) -> (r: BigNum)
        ensures
            r@ == self@ * other@,
    {
        let x = BigInt::from_slice(if self.negative { Sign::Minus } else { Sign::Plus }, &self.magnitude);
        let y = BigInt::from_slice(if other.negative { Sign::Minus } else { Sign::Plus }, &other.magnitude);
        let (s, m) = (x * y).to_u32_digits();
        BigNum { negative: s == Sign::Minus, magnitude: m }
    }

    /// num-bigint's `BigInt / BigInt`, which rounds toward zero and panics on a
    /// zero divisor.
    #[verifier::external_body]
    pub(crate) fn div(&self, other: &BigNum) -> (r: BigNum)
        requires
            other@ != 0,
        ensures
            r@ == trunc_div(self@, other@),
    {
        let x = BigInt::from_slice(if self.negative { Sign::Minus } else { Sign::Plus }, &self.magnitude);
        let y = BigInt::from_slice(if other.negative { Sign::Minus } else { Sign::Plus }, &other.magnitude);
        let (s, m) = (x / y).to_u32_digits();
        BigNum { negative: s == Sign::Minus, magnitude: m }
    }

    /// num-bigint's `BigInt % BigInt`: the remainder of division rounded toward
    /// zero, with the sign of the dividend; it panics on a zero divisor.
    #[verifier::external_body]
    pub(crate) fn rem(&self, other: &BigNum) -> (r: BigNum)
        requires
            other@ != 0,
        ensures
            r@ == trunc_rem(self@, other@),
    {
        let x = BigInt::from_slice(if self.negative { Sign::Minus } else { Sign::Plus }, &self.magnitude);
        let y = BigInt::from_slice(if other.negative { Sign::Minus } else { Sign::Plus }, &other.magnitude);
        let (s, m) = (x % y).to_u32_digits();
        BigNum { negative: s == Sign::Minus, magnitude: m }
    }

    /// num-bigint's `BigInt < BigInt`: the order of the values.
    #[verifier::external_body]
    pub(crate) fn lt(&self, other: &BigNum) -> (r: bool)
        ensures
            r == (self@ < other@),
    {
        let x = BigInt::from_slice(if self.negative { Sign::Minus } else { Sign::Plus }, &self.magnitude);
        let y = BigInt::from_slice(if other.negative { Sign::Minus } else { Sign::Plus }, &other.magnitude);
        x < y
    }

    /// num-bigint's `BigInt == BigInt`: equality of the values.
    #[verifier::external_body]
    pub(crate) fn eq_value(&self, other: &BigNum) -> (r: bool)
        ensures
            r == (self@ == other@),
    {
        let x = BigInt::from_slice(if self.negative { Sign::Minus } else { Sign::Plus }, &self.magnitude);
        let y = BigInt::from_slice(if other.negative { Sign::Minus } else { Sign::Plus }, &other.magnitude);
        x == y
    }

    /// num-bigint's `usize::try_from(&BigInt)`: the value, when it is in the
    /// range of `usize`.
    #[verifier::external_body]
    pub(crate) fn to_usize(&self) -> (r: Option<usize>)
        ensures
            r matches Some(u) ==> u == self@,
            r is None <==> !(0 <= self@ <= usize::MAX),
    {
        let x = BigInt::from_slice(if self.negative { Sign::Minus } else { Sign::Plus }, &self.magnitude);
        usize::try_from(&x).ok()
    }

    /// num-bigint's `i64::try_from(&BigInt)`: the value, when it is in the
    /// range of `i64`.
    #[verifier::external_body]
    pub(crate) fn to_i64(&self) -> (r: Option<i64>)
        ensures
            r matches Some(u) ==> u == self@,
            r is None <==> !(i64::MIN <= self@ <= i64::MAX),
    {
        let x = BigInt::from_slice(if self.negative { Sign::Minus } else { Sign::Plus }, &self.magnitude);
        i64::try_from(&x).ok()
    }
}

} // verus!
