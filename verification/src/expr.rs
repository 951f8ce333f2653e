//! Expressions of the ICFP language: operators, tokens and expression trees,
//! with their textual form.
//!
//! The model of a token is a `Tok` and the model of an expression a `Term`:
//! integers are mathematical integers there and strings sequences of chars.
use vstd::prelude::*;

use crate::base94::{
    all_digits, decode_base94, decode_str, decoded, digit_of, digit_value, encodable, encode_base94_int,
    encode_str, encoded, first_non_digit, first_unencodable, is_digit, law_numeral_roundtrip, law_str_roundtrip, lemma_numeral_value_nonneg, numeral_of, numeral_value,
    Base94Error,
};
use crate::bignum::BigNum;
use crate::text::{
    chars_of, is_ws, joined, law_words_of_joined, no_ws, push_char, reversed, split_words, string_of,
    words,
};

verus! {

/// Unary operators.
#[derive(PartialEq, Eq, Structural, Clone, Copy, Debug)]
pub enum UnOp {
    Neg,
    Not,
    StrToInt,
    IntToStr,
}

/// Binary operators. `App` applies a function by name, `AppL` lazily and
/// `AppV` by value.
#[derive(PartialEq, Eq, Structural, Clone, Copy, Debug)]
pub enum BinOp {
    Add,
    Sub,
    Mul,
    Div,
    Mod,
    Lt,
    Gt,
    Eq,
    Or,
    And,
    Concat,
    Take,
    Drop,
    App,
    AppL,
    AppV,
}

/// The character that follows `U` in the token of a unary operator.
pub open spec fn un_code(op: UnOp) -> char {
    match op {
        UnOp::Neg => '-',
        UnOp::Not => '!',
        UnOp::StrToInt => '#',
        UnOp::IntToStr => '$',
    }
}

/// The character that follows `B` in the token of a binary operator.
pub open spec fn bin_code(op: BinOp) -> char {
    match op {
        BinOp::Add => '+',
        BinOp::Sub => '-',
        BinOp::Mul => '*',
        BinOp::Div => '/',
        BinOp::Mod => '%',
        BinOp::Lt => '<',
        BinOp::Gt => '>',
        BinOp::Eq => '=',
        BinOp::Or => '|',
        BinOp::And => '&',
        BinOp::Concat => '.',
        BinOp::Take => 'T',
        BinOp::Drop => 'D',
        BinOp::App => '$',
        BinOp::AppL => '~',
        BinOp::AppV => '!',
    }
}

/// The unary operator whose code is `c`.
pub open spec fn un_of_code(c: char) -> Option<UnOp> {
    if c == '-' {
        Some(UnOp::Neg)
    } else if c == '!' {
        Some(UnOp::Not)
    } else if c == '#' {
        Some(UnOp::StrToInt)
    } else if c == '$' {
        Some(UnOp::IntToStr)
    } else {
        None
    }
}

/// The binary operator whose code is `c`.
pub open spec fn bin_of_code(c: char) -> Option<BinOp> {
    if c == '+' {
        Some(BinOp::Add)
    } else if c == '-' {
        Some(BinOp::Sub)
    } else if c == '*' {
        Some(BinOp::Mul)
    } else if c == '/' {
        Some(BinOp::Div)
    } else if c == '%' {
        Some(BinOp::Mod)
    } else if c == '<' {
        Some(BinOp::Lt)
    } else if c == '>' {
        Some(BinOp::Gt)
    } else if c == '=' {
        Some(BinOp::Eq)
    } else if c == '|' {
        Some(BinOp::Or)
    } else if c == '&' {
        Some(BinOp::And)
    } else if c == '.' {
        Some(BinOp::Concat)
    } else if c == 'T' {
        Some(BinOp::Take)
    } else if c == 'D' {
        Some(BinOp::Drop)
    } else if c == '$' {
        Some(BinOp::App)
    } else if c == '~' {
        Some(BinOp::AppL)
    } else if c == '!' {
        Some(BinOp::AppV)
    } else {
        None
    }
}

/// The one-character string `c`.
pub fn string_of_char(c: char) -> (r: String)
    ensures
        r@ == seq![c],
{
    let mut s = String::new();
    push_char(&mut s, c);
    s
}

/// The encoded form of a unary operator.
pub struct UnOpEncoded(pub UnOp);

/// The encoded form of a binary operator.
pub struct BinOpEncoded(pub BinOp);

impl UnOp {
    /// The encoded form of this operator.
    pub fn encoded(self) -> (r: UnOpEncoded)
        ensures
            r.0 == self,
    {
        UnOpEncoded(self)
    }

    /// The code character of this operator.
    pub fn code(self) -> (c: char)
        ensures
            c == un_code(self),
    {
        match self {
            UnOp::Neg => '-',
            UnOp::Not => '!',
            UnOp::StrToInt => '#',
            UnOp::IntToStr => '$',
        }
    }
}

impl UnOpEncoded {
    /// The text of the encoded operator: its code character.
    pub fn to_string(&self) -> (r: String)
        ensures
            r@ == seq![un_code(self.0)],
    {
        string_of_char(self.0.code())
    }
}

impl BinOp {
    /// The encoded form of this operator.
    pub fn encoded(self) -> (r: BinOpEncoded)
        ensures
            r.0 == self,
    {
        BinOpEncoded(self)
    }

    /// The code character of this operator.
    pub fn code(self) -> (c: char)
        ensures
            c == bin_code(self),
    {
        match self {
            BinOp::Add => '+',
            BinOp::Sub => '-',
            BinOp::Mul => '*',
            BinOp::Div => '/',
            BinOp::Mod => '%',
            BinOp::Lt => '<',
            BinOp::Gt => '>',
            BinOp::Eq => '=',
            BinOp::Or => '|',
            BinOp::And => '&',
            BinOp::Concat => '.',
            BinOp::Take => 'T',
            BinOp::Drop => 'D',
            BinOp::App => '$',
            BinOp::AppL => '~',
            BinOp::AppV => '!',
        }
    }
}

impl BinOpEncoded {
    /// The text of the encoded operator: its code character.
    pub fn to_string(&self) -> (r: String)
        ensures
            r@ == seq![bin_code(self.0)],
    {
        string_of_char(self.0.code())
    }
}

/// A token of the expression language.
#[derive(Debug, Clone, PartialEq, Eq)]
pub enum Token {
    Bool(bool),
    Int(BigNum),
    String(String),
    Un(UnOp),
    Bin(BinOp),
    If,
    Lambda(usize),
    Var(usize),
}

/// The model of a token.
pub enum Tok {
    Bool(bool),
    Int(int),
    Str(Seq<char>),
    Un(UnOp),
    Bin(BinOp),
    If,
    Lambda(usize),
    Var(usize),
}

impl View for Token {
    type V = Tok;

    open spec fn view(&self) -> Tok {
        match self {
            Token::Bool(b) => Tok::Bool(*b),
            Token::Int(n) => Tok::Int(n@),
            Token::String(s) => Tok::Str(s@),
            Token::Un(op) => Tok::Un(*op),
            Token::Bin(op) => Tok::Bin(*op),
            Token::If => Tok::If,
            Token::Lambda(v) => Tok::Lambda(*v),
            Token::Var(v) => Tok::Var(*v),
        }
    }
}

/// An expression of the language.
#[derive(PartialEq, Eq, Debug)]
pub enum Expr {
    Bool(bool),
    Int(BigNum),
    String(String),
    Var(usize),
    Un(UnOp, Box<Expr>),
    Bin(BinOp, Box<Expr>, Box<Expr>),
    If(Box<Expr>, Box<Expr>, Box<Expr>),
    Lambda(usize, Box<Expr>),
}

/// The model of an expression.
pub enum Term {
    Bool(bool),
    Int(int),
    Str(Seq<char>),
    Var(usize),
    Un(UnOp, Box<Term>),
    Bin(BinOp, Box<Term>, Box<Term>),
    If(Box<Term>, Box<Term>, Box<Term>),
    Lambda(usize, Box<Term>),
}

impl Expr {
    /// The model of this expression.
    pub open spec fn term(&self) -> Term
        decreases self,
    {
        match self {
            Expr::Bool(b) => Term::Bool(*b),
            Expr::Int(n) => Term::Int(n@),
            Expr::String(s) => Term::Str(s@),
            Expr::Var(v) => Term::Var(*v),
            Expr::Un(op, e) => Term::Un(*op, Box::new(e.term())),
            Expr::Bin(op, l, r) => Term::Bin(*op, Box::new(l.term()), Box::new(r.term())),
            Expr::If(c, t, e) => Term::If(Box::new(c.term()), Box::new(t.term()), Box::new(e.term())),
            Expr::Lambda(v, e) => Term::Lambda(*v, Box::new(e.term())),
        }
    }
}

/// The tokens of a term, in prefix order.
pub open spec fn term_tokens(t: Term) -> Seq<Tok>
    decreases t,
{
    match t {
        Term::Bool(b) => seq![Tok::Bool(b)],
        Term::Int(n) => seq![Tok::Int(n)],
        Term::Str(s) => seq![Tok::Str(s)],
        Term::Var(v) => seq![Tok::Var(v)],
        Term::Un(op, e) => seq![Tok::Un(op)] + term_tokens(*e),
        Term::Bin(op, l, r) => seq![Tok::Bin(op)] + term_tokens(*l) + term_tokens(*r),
        Term::If(c, t, e) => seq![Tok::If] + term_tokens(*c) + term_tokens(*t) + term_tokens(*e),
        Term::Lambda(v, e) => seq![Tok::Lambda(v)] + term_tokens(*e),
    }
}

/// The models of a sequence of tokens.
pub open spec fn toks_of(v: Seq<Token>) -> Seq<Tok> {
    v.map_values(|t: Token| t@)
}

impl Token {
    /// A copy of this token, with the same model.
    pub fn copy(&self) -> (r: Token)
        ensures
            r@ == self@,
    {
        match self {
            Token::Bool(b) => Token::Bool(*b),
            Token::Int(n) => Token::Int(n.copy()),
            Token::String(s) => Token::String(s.clone()),
            Token::Un(op) => Token::Un(*op),
            Token::Bin(op) => Token::Bin(*op),
            Token::If => Token::If,
            Token::Lambda(v) => Token::Lambda(*v),
            Token::Var(v) => Token::Var(*v),
        }
    }
}

impl Expr {
    /// A copy of this expression, with the same model.
    pub fn copy(&self) -> (r: Expr)
        ensures
            r.term() == self.term(),
        decreases self,
    {
        match self {
            Expr::Bool(b) => Expr::Bool(*b),
            Expr::Int(n) => Expr::Int(n.copy()),
            Expr::String(s) => Expr::String(s.clone()),
            Expr::Var(v) => Expr::Var(*v),
            Expr::Un(op, e) => Expr::Un(*op, Box::new(e.copy())),
            Expr::Bin(op, l, r) => Expr::Bin(*op, Box::new(l.copy()), Box::new(r.copy())),
            Expr::If(c, t, e) => Expr::If(Box::new(c.copy()), Box::new(t.copy()), Box::new(e.copy())),
            Expr::Lambda(v, e) => Expr::Lambda(*v, Box::new(e.copy())),
        }
    }

    /// The expression is a value in normal form: a boolean, integer or string.
    pub fn is_nf(&self) -> (r: bool)
        ensures
            r == (self matches Expr::Bool(_) || self matches Expr::Int(_) || self matches Expr::String(_)),
    {
        match self {
            Expr::Bool(_) | Expr::Int(_) | Expr::String(_) => true,
            _ => false,
        }
    }

    /// The tokens of this expression, in prefix order.
    pub fn to_tokens(&self) -> (r: Vec<Token>)
        ensures
            toks_of(r@) == term_tokens(self.term()),
        decreases self,
    {
        let mut out: Vec<Token> = Vec::new();
        self.push_tokens(&mut out);
        assert(toks_of(out@) =~= term_tokens(self.term()));
        out
    }

    fn push_tokens(&self, out: &mut Vec<Token>)
        ensures
            toks_of(final(out)@) =~= toks_of(old(out)@) + term_tokens(self.term()),
        decreases self,
    {
        let ghost start = toks_of(out@);
        match self {
            Expr::Bool(b) => {
                out.push(Token::Bool(*b));
            },
            Expr::Int(n) => {
                out.push(Token::Int(n.copy()));
            },
            Expr::String(s) => {
                out.push(Token::String(s.clone()));
            },
            Expr::Var(v) => {
                out.push(Token::Var(*v));
            },
            Expr::Un(op, e) => {
                out.push(Token::Un(*op));
                e.push_tokens(out);
            },
            Expr::Bin(op, l, r) => {
                out.push(Token::Bin(*op));
                l.push_tokens(out);
                r.push_tokens(out);
            },
            Expr::If(c, t, e) => {
                out.push(Token::If);
                c.push_tokens(out);
                t.push_tokens(out);
                e.push_tokens(out);
            },
            Expr::Lambda(v, e) => {
                out.push(Token::Lambda(*v));
                e.push_tokens(out);
            },
        }
    }
}

/// Why a token or expression could not be written.
#[derive(Debug, Clone, Copy, PartialEq, Eq)]
pub enum EncodeError {
    /// A negative integer has no token.
    NegativeInt,
    /// A string could not be encoded.
    Base94(Base94Error),
    /// A variable number is beyond the range of `i64`.
    VarOutOfRange,
}

/// Why a text could not be read as tokens or an expression.
#[derive(Debug, Clone, Copy, PartialEq, Eq)]
pub enum ParseError {
    /// The word is not a token.
    InvalidToken,
    /// A digit of the word is not a base-94 digit.
    Base94(Base94Error),
    /// The tokens do not begin with an expression.
    InvalidExpr,
    /// Tokens follow a complete expression.
    ExtraTokens,
}

/// The text of a token.
pub open spec fn tok_encode(t: Tok) -> Result<Seq<char>, EncodeError> {
    match t {
        Tok::Bool(b) => Ok(seq![if b { 'T' } else { 'F' }]),
        Tok::Int(n) => if n < 0 {
            Err(EncodeError::NegativeInt)
        } else {
            Ok(seq!['I'] + numeral_of(n as nat))
        },
        Tok::Str(s) => if encodable(s) {
            Ok(seq!['S'] + encoded(s))
        } else {
            Err(EncodeError::Base94(Base94Error::InvalidChar(s[first_unencodable(s)])))
        },
        Tok::Un(op) => Ok(seq!['U', un_code(op)]),
        Tok::Bin(op) => Ok(seq!['B', bin_code(op)]),
        Tok::If => Ok(seq!['?']),
        Tok::Lambda(v) => if v <= i64::MAX {
            Ok(seq!['L'] + numeral_of(v as nat))
        } else {
            Err(EncodeError::VarOutOfRange)
        },
        Tok::Var(v) => if v <= i64::MAX {
            Ok(seq!['v'] + numeral_of(v as nat))
        } else {
            Err(EncodeError::VarOutOfRange)
        },
    }
}

/// The text of a string result.
pub open spec fn text_of<E>(r: Result<String, E>) -> Result<Seq<char>, E> {
    match r {
        Ok(s) => Ok(s@),
        Err(e) => Err(e),
    }
}

/// The encoded form of a token.
pub struct TokenEncoded<'a>(pub &'a Token);

impl Token {
    /// The encoded form of this token.
    pub fn encoded(&self) -> (r: TokenEncoded<'_>)
        ensures
            r.0 == self,
    {
        TokenEncoded(self)
    }
}

/// The base-94 numeral of a non-negative integer.
fn numeral_of_bignum(n: &BigNum) -> (r: Vec<char>)
    requires
        n@ >= 0,
    ensures
        r@ == numeral_of(n@ as nat),
{
    let zero = BigNum::zero();
    if n.eq_value(&zero) {
        let mut r: Vec<char> = Vec::new();
        r.push('!');
        assert(numeral_of(0) =~= seq!['!']);
        return r;
    }
    let base = BigNum::from_i64(94);
    let mut rev: Vec<char> = Vec::new();
    let mut m = n.copy();
    while zero.lt(&m)
        invariant
            zero@ == 0,
            base@ == 94,
            m@ >= 0,
            m@ > 0 ==> numeral_of(n@ as nat) == numeral_of(m@ as nat) + reversed(rev@),
            m@ == 0 ==> numeral_of(n@ as nat) == reversed(rev@),
        decreases m@,
    {
        let q = m.div(&base);
        let r = m.sub(&q.mul(&base));
        assert(q@ == m@ / 94);
        assert(r@ == m@ % 94);
        let d = match r.to_i64() {
            Some(d) => d,
            None => 0,
        };
        let c = ((d + 33) as u8) as char;
        assert(c == digit_of(m@ % 94));
        let ghost old_rev = rev@;
        rev.push(c);
        assert(reversed(rev@) =~= seq![c] + reversed(old_rev));
        proof {
            if m@ < 94 {
                assert(numeral_of(m@ as nat) == seq![c]);
            } else {
                assert(numeral_of(m@ as nat) == numeral_of((m@ / 94) as nat).push(c));
            }
        }
        m = q;
    }
    let mut out: Vec<char> = Vec::new();
    let mut i = rev.len();
    while i > 0
        invariant
            i <= rev.len(),
            out@ == reversed(rev@.skip(i as int)),
        decreases i,
    {
        i = i - 1;
        assert(reversed(rev@.skip(i as int)) =~= reversed(rev@.skip(i + 1)).push(rev@[i as int]));
        out.push(rev[i]);
    }
    assert(rev@.skip(0) == rev@);
    out
}

/// Appends the characters of `cs` to `s`.
fn push_all(s: &mut String, cs: &Vec<char>)
    ensures
        final(s)@ == old(s)@ + cs@,
{
    let mut i: usize = 0;
    while i < cs.len()
        invariant
            i <= cs.len(),
            s@ == old(s)@ + cs@.take(i as int),
        decreases cs.len() - i,
    {
        push_char(s, cs[i]);
        assert(cs@.take(i + 1) == cs@.take(i as int).push(cs@[i as int]));
        i = i + 1;
    }
    assert(cs@.take(cs.len() as int) == cs@);
}

impl<'a> TokenEncoded<'a> {
    /// The text of the token: `T` or `F`; `I` and the numeral of a non-negative
    /// integer; `S` and the encoded string; `U` or `B` and the operator's code;
    /// `?`; `L` or `v` and the numeral of the variable.
    pub fn to_string(&self) -> (r: Result<String, EncodeError>)
        ensures
            text_of(r) == tok_encode(self.0@),
    {
        let mut out = String::new();
        match self.0 {
            Token::Bool(b) => {
                push_char(&mut out, if *b { 'T' } else { 'F' });
                assert(out@ =~= seq![if *b { 'T' } else { 'F' }]);
            },
            Token::Int(n) => {
                let zero = BigNum::zero();
                if n.lt(&zero) {
                    return Err(EncodeError::NegativeInt);
                }
                push_char(&mut out, 'I');
                let digits = numeral_of_bignum(n);
                push_all(&mut out, &digits);
                assert(out@ =~= seq!['I'] + digits@);
            },
            Token::String(s) => {
                push_char(&mut out, 'S');
                match encode_str(s.as_str()) {
                    Ok(t) => {
                        let cs = chars_of(t.as_str());
                        push_all(&mut out, &cs);
                        assert(out@ =~= seq!['S'] + encoded(s@));
                    },
                    Err(e) => {
                        return Err(EncodeError::Base94(e));
                    },
                }
            },
            Token::Un(op) => {
                push_char(&mut out, 'U');
                push_char(&mut out, op.code());
                assert(out@ =~= tok_encode(self.0@)->Ok_0);
            },
            Token::Bin(op) => {
                push_char(&mut out, 'B');
                push_char(&mut out, op.code());
                assert(out@ =~= tok_encode(self.0@)->Ok_0);
            },
            Token::If => {
                push_char(&mut out, '?');
                assert(out@ =~= seq!['?']);
            },
            Token::Lambda(v) => {
                push_char(&mut out, 'L');
                if *v as u64 > 0x7fff_ffff_ffff_ffffu64 {
                    return Err(EncodeError::VarOutOfRange);
                }
                match encode_base94_int(*v as i64) {
                    Ok(t) => {
                        let cs = chars_of(t.as_str());
                        push_all(&mut out, &cs);
                        assert(out@ =~= tok_encode(self.0@)->Ok_0);
                    },
                    Err(e) => {
                        return Err(EncodeError::Base94(e));
                    },
                }
            },
            Token::Var(v) => {
                push_char(&mut out, 'v');
                if *v as u64 > 0x7fff_ffff_ffff_ffffu64 {
                    return Err(EncodeError::VarOutOfRange);
                }
                match encode_base94_int(*v as i64) {
                    Ok(t) => {
                        let cs = chars_of(t.as_str());
                        push_all(&mut out, &cs);
                        assert(out@ =~= tok_encode(self.0@)->Ok_0);
                    },
                    Err(e) => {
                        return Err(EncodeError::Base94(e));
                    },
                }
            },
        }
        Ok(out)
    }
}

/// The digit error for a word tail that is not all digits.
pub open spec fn digit_error(rest: Seq<char>) -> ParseError {
    ParseError::Base94(Base94Error::InvalidDigit(rest[first_non_digit(rest)]))
}

/// The token that the word `w` denotes.
///
/// The first character chooses the kind. `T` and `F` stand alone. `I` is
/// followed by a numeral (empty for zero), `S` by an encoded string, `L` and
/// `v` by the numeral of a variable. `U` and `B` are followed by an operator
/// code, after which further characters are ignored, as they are after `?`.
pub open spec fn tok_parse(w: Seq<char>) -> Result<Tok, ParseError> {
    if w.len() == 0 {
        Err(ParseError::InvalidToken)
    } else {
        let c = w[0];
        let rest = w.drop_first();
        if c == 'T' || c == 'F' {
            if rest.len() == 0 {
                Ok(Tok::Bool(c == 'T'))
            } else {
                Err(ParseError::InvalidToken)
            }
        } else if c == 'I' || c == 'L' || c == 'v' {
            if !all_digits(rest) {
                Err(digit_error(rest))
            } else if c == 'I' {
                Ok(Tok::Int(numeral_value(rest)))
            } else if c == 'L' {
                Ok(Tok::Lambda(numeral_value(rest) as usize))
            } else {
                Ok(Tok::Var(numeral_value(rest) as usize))
            }
        } else if c == 'S' {
            if all_digits(rest) {
                Ok(Tok::Str(decoded(rest)))
            } else {
                Err(digit_error(rest))
            }
        } else if c == 'U' {
            if rest.len() > 0 && un_of_code(rest[0]) is Some {
                Ok(Tok::Un(un_of_code(rest[0])->0))
            } else {
                Err(ParseError::InvalidToken)
            }
        } else if c == 'B' {
            if rest.len() > 0 && bin_of_code(rest[0]) is Some {
                Ok(Tok::Bin(bin_of_code(rest[0])->0))
            } else {
                Err(ParseError::InvalidToken)
            }
        } else if c == '?' {
            Ok(Tok::If)
        } else {
            Err(ParseError::InvalidToken)
        }
    }
}

/// A variable word names a variable that fits in a `usize`.
pub open spec fn var_in_range(w: Seq<char>) -> bool {
    (w.len() > 0 && (w[0] == 'L' || w[0] == 'v') && all_digits(w.drop_first())) ==> numeral_value(
        w.drop_first(),
    ) <= usize::MAX
}

/// Whether the variable number of a word (`L` or `v` and base-94 digits)
/// fits in `usize`; true of every other word.
pub fn word_in_range(w: &Vec<char>) -> (r: bool)
    ensures
        r == var_in_range(w@),
{
    if w.len() == 0 || (w[0] != 'L' && w[0] != 'v') {
        return true;
    }
    let mut acc: u128 = 0;
    let mut overflow = false;
    let mut i: usize = 1;
    while i < w.len()
        invariant
            1 <= i <= w.len(),
            w@.len() > 0,
            all_digits(w@.subrange(1, i as int)),
            overflow ==> numeral_value(w@.subrange(1, i as int)) > usize::MAX,
            !overflow ==> acc == numeral_value(w@.subrange(1, i as int)) && acc <= usize::MAX,
        decreases w.len() - i,
    {
        let c = w[i];
        let u = c as u32;
        assert(w@.subrange(1, i + 1).drop_last() =~= w@.subrange(1, i as int));
        assert(w@.subrange(1, i + 1).last() == c);
        if u < 33 || u > 126 {
            proof {
                assert(w@.drop_first()[i - 1] == c);
                assert(!all_digits(w@.drop_first()));
            }
            return true;
        }
        proof {
            crate::base94::lemma_numeral_value_nonneg(w@.subrange(1, i as int));
        }
        if !overflow {
            let next = acc * 94 + (u as u128 - 33);
            if next > usize::MAX as u128 {
                overflow = true;
            } else {
                acc = next;
            }
        }
        i = i + 1;
    }
    assert(w@.subrange(1, w.len() as int) =~= w@.drop_first());
    !overflow
}

/// Whether the variable number of every word of `s` fits in `usize` (what
/// `Expr::from_str` needs).
pub fn words_in_range(s: &str) -> (r: bool)
    ensures
        r == forall|i: int| 0 <= i < words(s@).len() ==> var_in_range(#[trigger] words(s@)[i]),
{
    let ws = split_words(s);
    let mut i: usize = 0;
    while i < ws.len()
        invariant
            ws@.map_values(|w: Vec<char>| w@) == words(s@),
            i <= ws.len(),
            forall|j: int| 0 <= j < i ==> var_in_range(#[trigger] words(s@)[j]),
        decreases ws.len() - i,
    {
        assert(words(s@)[i as int] == ws@[i as int]@);
        if !word_in_range(&ws[i]) {
            return false;
        }
        i = i + 1;
    }
    true
}

/// The model of a token result.
pub open spec fn tok_result(r: Result<Token, ParseError>) -> Result<Tok, ParseError> {
    match r {
        Ok(t) => Ok(t@),
        Err(e) => Err(e),
    }
}

/// The value of the base-94 digits of `cs` from `start` on.
fn decode_digits(cs: &Vec<char>, start: usize) -> (r: Result<BigNum, Base94Error>)
    requires
        start <= cs.len(),
    ensures
        all_digits(cs@.skip(start as int)) ==> (r matches Ok(n) && n@ == numeral_value(
            cs@.skip(start as int),
        )),
        !all_digits(cs@.skip(start as int)) ==> r == Err::<BigNum, Base94Error>(
            Base94Error::InvalidDigit(cs@.skip(start as int)[first_non_digit(cs@.skip(start as int))]),
        ),
{
    let ghost rest = cs@.skip(start as int);
    let base = BigNum::from_i64(94);
    let mut n = BigNum::zero();
    let mut i = start;
    while i < cs.len()
        invariant
            start <= i <= cs.len(),
            rest == cs@.skip(start as int),
            base@ == 94,
            all_digits(rest.take(i - start)),
            n@ == numeral_value(rest.take(i - start)),
        decreases cs.len() - i,
    {
        match decode_base94(cs[i]) {
            Ok(d) => {
                let ghost next = rest.take(i - start + 1);
                assert(next.drop_last() == rest.take(i - start));
                assert(next.last() == cs@[i as int]);
                n = n.mul(&base).add(&BigNum::from_i64(d));
            },
            Err(e) => {
                proof {
                    assert(rest[i - start] == cs@[i as int]);
                    lemma_first_non_digit_at(rest, i - start);
                }
                return Err(e);
            },
        }
        i = i + 1;
    }
    assert(rest.take(i - start) == rest);
    Ok(n)
}

/// The first non-digit of `s` is at `i` when all before it are digits.
pub proof fn lemma_first_non_digit_at(s: Seq<char>, i: int)
    requires
        0 <= i < s.len(),
        all_digits(s.take(i)),
        !is_digit(s[i]),
    ensures
        !all_digits(s),
        first_non_digit(s) == i,
    decreases i,
{
    if i > 0 {
        assert(is_digit(s.take(i)[0]));
        assert(s.drop_first().take(i - 1) =~= s.take(i).drop_first());
        lemma_first_non_digit_at(s.drop_first(), i - 1);
    }
}

impl Token {
    /// Reads a token from its text; see `tok_parse`.
    pub fn from_str(s: &str) -> (r: Result<Token, ParseError>)
        requires
            var_in_range(s@),
        ensures
            tok_result(r) == tok_parse(s@),
    {
        let cs = chars_of(s);
        if cs.len() == 0 {
            return Err(ParseError::InvalidToken);
        }
        let c = cs[0];
        assert(cs@.drop_first() == cs@.skip(1));
        if c == 'T' || c == 'F' {
            if cs.len() > 1 {
                return Err(ParseError::InvalidToken);
            }
            Ok(Token::Bool(c == 'T'))
        } else if c == 'I' || c == 'L' || c == 'v' {
            let n = match decode_digits(&cs, 1) {
                Ok(n) => n,
                Err(e) => {
                    return Err(ParseError::Base94(e));
                },
            };
            if c == 'I' {
                Ok(Token::Int(n))
            } else {
                proof {
                    lemma_numeral_value_nonneg(cs@.skip(1));
                }
                let u = match n.to_usize() {
                    Some(u) => u,
                    None => 0,
                };
                if c == 'L' {
                    Ok(Token::Lambda(u))
                } else {
                    Ok(Token::Var(u))
                }
            }
        } else if c == 'S' {
            let mut i: usize = 1;
            let mut rest: Vec<char> = Vec::new();
            while i < cs.len()
                invariant
                    1 <= i <= cs.len(),
                    rest@ == cs@.subrange(1, i as int),
                decreases cs.len() - i,
            {
                rest.push(cs[i]);
                i = i + 1;
            }
            assert(rest@ == cs@.drop_first());
            let text = string_of(&rest);
            match decode_str(text.as_str()) {
                Ok(t) => Ok(Token::String(t)),
                Err(e) => Err(ParseError::Base94(e)),
            }
        } else if c == 'U' {
            if cs.len() < 2 {
                return Err(ParseError::InvalidToken);
            }
            let d = cs[1];
            if d == '-' {
                Ok(Token::Un(UnOp::Neg))
            } else if d == '!' {
                Ok(Token::Un(UnOp::Not))
            } else if d == '#' {
                Ok(Token::Un(UnOp::StrToInt))
            } else if d == '$' {
                Ok(Token::Un(UnOp::IntToStr))
            } else {
                Err(ParseError::InvalidToken)
            }
        } else if c == 'B' {
            if cs.len() < 2 {
                return Err(ParseError::InvalidToken);
            }
            let d = cs[1];
            let op = if d == '+' {
                BinOp::Add
            } else if d == '-' {
                BinOp::Sub
            } else if d == '*' {
                BinOp::Mul
            } else if d == '/' {
                BinOp::Div
            } else if d == '%' {
                BinOp::Mod
            } else if d == '<' {
                BinOp::Lt
            } else if d == '>' {
                BinOp::Gt
            } else if d == '=' {
                BinOp::Eq
            } else if d == '|' {
                BinOp::Or
            } else if d == '&' {
                BinOp::And
            } else if d == '.' {
                BinOp::Concat
            } else if d == 'T' {
                BinOp::Take
            } else if d == 'D' {
                BinOp::Drop
            } else if d == '$' {
                BinOp::App
            } else if d == '~' {
                BinOp::AppL
            } else if d == '!' {
                BinOp::AppV
            } else {
                return Err(ParseError::InvalidToken);
            };
            Ok(Token::Bin(op))
        } else if c == '?' {
            Ok(Token::If)
        } else {
            Err(ParseError::InvalidToken)
        }
    }
}

/// The tokens of the words `ws`, or the error of the first word that is not
/// a token.
pub open spec fn toks_parse(ws: Seq<Seq<char>>) -> Result<Seq<Tok>, ParseError>
    decreases ws.len(),
{
    if ws.len() == 0 {
        Ok(seq![])
    } else {
        match toks_parse(ws.drop_last()) {
            Err(e) => Err(e),
            Ok(ts) => match tok_parse(ws.last()) {
                Err(e) => Err(e),
                Ok(t) => Ok(ts.push(t)),
            },
        }
    }
}

/// The model of a tokens result.
pub open spec fn toks_result(r: Result<Vec<Token>, ParseError>) -> Result<Seq<Tok>, ParseError> {
    match r {
        Ok(v) => Ok(toks_of(v@)),
        Err(e) => Err(e),
    }
}

/// Splits `s` into words and reads each as a token, failing at the first word
/// that is not one.
pub fn tokenize(s: &str) -> (r: Result<Vec<Token>, ParseError>)
    requires
        forall|i: int| 0 <= i < words(s@).len() ==> var_in_range(#[trigger] words(s@)[i]),
    ensures
        toks_result(r) == toks_parse(words(s@)),
{
    let ws = split_words(s);
    let ghost wv = ws@.map_values(|w: Vec<char>| w@);
    let mut out: Vec<Token> = Vec::new();
    let mut i: usize = 0;
    assert(toks_of(out@) =~= Seq::<Tok>::empty());
    assert(toks_parse(wv.take(0)) == Ok::<Seq<Tok>, ParseError>(Seq::<Tok>::empty()));
    while i < ws.len()
        invariant
            i <= ws.len(),
            wv == ws@.map_values(|w: Vec<char>| w@),
            wv == words(s@),
            forall|k: int| 0 <= k < wv.len() ==> var_in_range(#[trigger] wv[k]),
            toks_parse(wv.take(i as int)) == Ok::<Seq<Tok>, ParseError>(toks_of(out@)),
        decreases ws.len() - i,
    {
        assert(wv.take(i + 1).drop_last() == wv.take(i as int));
        assert(wv.take(i + 1).last() == ws@[i as int]@);
        let text = string_of(&ws[i]);
        match Token::from_str(text.as_str()) {
            Ok(t) => {
                let ghost before = toks_of(out@);
                let ghost tv = t@;
                out.push(t);
                assert(toks_of(out@) =~= before.push(tv));
            },
            Err(e) => {
                proof {
                    lemma_toks_parse_err(wv, i as int, e);
                }
                return Err(e);
            },
        }
        i = i + 1;
    }
    assert(wv.take(ws.len() as int) == wv);
    Ok(out)
}

/// A word that fails to parse makes the whole sequence fail with its error.
proof fn lemma_toks_parse_err(ws: Seq<Seq<char>>, i: int, e: ParseError)
    requires
        0 <= i < ws.len(),
        toks_parse(ws.take(i)) is Ok,
        tok_parse(ws[i]) == Err::<Tok, ParseError>(e),
    ensures
        toks_parse(ws) == Err::<Seq<Tok>, ParseError>(e),
    decreases ws.len(),
{
    if i == ws.len() - 1 {
        assert(ws.drop_last() == ws.take(i));
    } else {
        assert(ws.drop_last().take(i) == ws.take(i));
        lemma_toks_parse_err(ws.drop_last(), i, e);
    }
}

/// `p` is a prefix of `s`.
pub open spec fn is_prefix<A>(p: Seq<A>, s: Seq<A>) -> bool {
    p.len() <= s.len() && s.subrange(0, p.len() as int) == p
}

/// Some term's tokens are a prefix of `s`.
pub open spec fn starts_with_term(s: Seq<Tok>) -> bool {
    exists|t: Term| is_prefix(term_tokens(t), s)
}

/// A term has at least one token.
pub proof fn lemma_term_tokens_nonempty(t: Term)
    ensures
        term_tokens(t).len() >= 1,
        term_tokens(t)[0] == match t {
            Term::Bool(b) => Tok::Bool(b),
            Term::Int(n) => Tok::Int(n),
            Term::Str(x) => Tok::Str(x),
            Term::Var(v) => Tok::Var(v),
            Term::Un(op, _) => Tok::Un(op),
            Term::Bin(op, _, _) => Tok::Bin(op),
            Term::If(_, _, _) => Tok::If,
            Term::Lambda(v, _) => Tok::Lambda(v),
        },
{
}

/// A piece of a prefix of `s` is a prefix of the matching suffix of `s`.
proof fn lemma_piece_prefix(p: Seq<Tok>, s: Seq<Tok>, lo: int, hi: int, piece: Seq<Tok>)
    requires
        is_prefix(p, s),
        0 <= lo <= hi <= p.len(),
        p.subrange(lo, hi) == piece,
    ensures
        is_prefix(piece, s.skip(lo)),
{
    assert(s.subrange(0, p.len() as int) == p);
    assert(s.skip(lo).subrange(0, piece.len() as int) =~= p.subrange(lo, hi));
}

/// At most one term's tokens are a prefix of a token sequence: the prefix
/// notation reads back unambiguously.
pub proof fn law_prefix_unique(a: Term, b: Term, s: Seq<Tok>)
    requires
        is_prefix(term_tokens(a), s),
        is_prefix(term_tokens(b), s),
    ensures
        a == b,
    decreases a,
{
    lemma_term_tokens_nonempty(a);
    lemma_term_tokens_nonempty(b);
    let ta = term_tokens(a);
    let tb = term_tokens(b);
    assert(ta[0] == s[0]);
    assert(tb[0] == s[0]);
    match a {
        Term::Un(op, x) => {
            if let Term::Un(op2, y) = b {
                assert(ta.subrange(1, ta.len() as int) =~= term_tokens(*x));
                assert(tb.subrange(1, tb.len() as int) =~= term_tokens(*y));
                lemma_piece_prefix(ta, s, 1, ta.len() as int, term_tokens(*x));
                lemma_piece_prefix(tb, s, 1, tb.len() as int, term_tokens(*y));
                law_prefix_unique(*x, *y, s.skip(1));
            }
        },
        Term::Lambda(v, x) => {
            if let Term::Lambda(v2, y) = b {
                assert(ta.subrange(1, ta.len() as int) =~= term_tokens(*x));
                assert(tb.subrange(1, tb.len() as int) =~= term_tokens(*y));
                lemma_piece_prefix(ta, s, 1, ta.len() as int, term_tokens(*x));
                lemma_piece_prefix(tb, s, 1, tb.len() as int, term_tokens(*y));
                law_prefix_unique(*x, *y, s.skip(1));
            }
        },
        Term::Bin(op, x1, x2) => {
            if let Term::Bin(op2, y1, y2) = b {
                let a1 = term_tokens(*x1);
                let b1 = term_tokens(*y1);
                let a2 = term_tokens(*x2);
                let b2 = term_tokens(*y2);
                assert(ta == seq![Tok::Bin(op)] + a1 + a2);
                assert(tb == seq![Tok::Bin(op2)] + b1 + b2);
                let ea: int = 1 + a1.len() as int;
                let eb: int = 1 + b1.len() as int;
                assert(ta.subrange(1, ea) =~= a1);
                assert(tb.subrange(1, eb) =~= b1);
                lemma_piece_prefix(ta, s, 1, ea, a1);
                lemma_piece_prefix(tb, s, 1, eb, b1);
                law_prefix_unique(*x1, *y1, s.skip(1));
                assert(ta.subrange(ea, ta.len() as int) =~= a2);
                assert(tb.subrange(eb, tb.len() as int) =~= b2);
                lemma_piece_prefix(ta, s, ea, ta.len() as int, a2);
                lemma_piece_prefix(tb, s, eb, tb.len() as int, b2);
                law_prefix_unique(*x2, *y2, s.skip(ea));
            }
        },
        Term::If(x1, x2, x3) => {
            if let Term::If(y1, y2, y3) = b {
                let a1 = term_tokens(*x1);
                let a2 = term_tokens(*x2);
                let a3 = term_tokens(*x3);
                let b1 = term_tokens(*y1);
                let b2 = term_tokens(*y2);
                let b3 = term_tokens(*y3);
                assert(ta == seq![Tok::If] + a1 + a2 + a3);
                assert(tb == seq![Tok::If] + b1 + b2 + b3);
                let ea: int = 1 + a1.len() as int;
                let eb: int = 1 + b1.len() as int;
                assert(ta.subrange(1, ea) =~= a1);
                assert(tb.subrange(1, eb) =~= b1);
                lemma_piece_prefix(ta, s, 1, ea, a1);
                lemma_piece_prefix(tb, s, 1, eb, b1);
                law_prefix_unique(*x1, *y1, s.skip(1));
                let fa: int = ea + a2.len();
                let fb: int = eb + b2.len();
                assert(ta.subrange(ea, fa) =~= a2);
                assert(tb.subrange(eb, fb) =~= b2);
                lemma_piece_prefix(ta, s, ea, fa, a2);
                lemma_piece_prefix(tb, s, eb, fb, b2);
                law_prefix_unique(*x2, *y2, s.skip(ea));
                assert(ta.subrange(fa, ta.len() as int) =~= a3);
                assert(tb.subrange(fb, tb.len() as int) =~= b3);
                lemma_piece_prefix(ta, s, fa, ta.len() as int, a3);
                lemma_piece_prefix(tb, s, fb, tb.len() as int, b3);
                law_prefix_unique(*x3, *y3, s.skip(fa));
            }
        },
        _ => {},
    }
}

/// Nothing is a prefix of the empty sequence.
proof fn lemma_no_term_in_empty(s: Seq<Tok>)
    requires
        s.len() == 0,
    ensures
        !starts_with_term(s),
{
    assert forall|t: Term| !is_prefix(term_tokens(t), s) by {
        lemma_term_tokens_nonempty(t);
    }
}

/// A one-child node cannot start `s` when its child cannot start the rest.
proof fn lemma_no_term_one(s: Seq<Tok>)
    requires
        s.len() > 0,
        s[0] is Un || s[0] is Lambda,
        !starts_with_term(s.skip(1)),
    ensures
        !starts_with_term(s),
{
    assert forall|t: Term| !is_prefix(term_tokens(t), s) by {
        if is_prefix(term_tokens(t), s) {
            lemma_term_tokens_nonempty(t);
            let tt = term_tokens(t);
            assert(tt[0] == s[0]);
            match t {
                Term::Un(_, x) => {
                    assert(tt.subrange(1, tt.len() as int) =~= term_tokens(*x));
                    lemma_piece_prefix(tt, s, 1, tt.len() as int, term_tokens(*x));
                },
                Term::Lambda(_, x) => {
                    assert(tt.subrange(1, tt.len() as int) =~= term_tokens(*x));
                    lemma_piece_prefix(tt, s, 1, tt.len() as int, term_tokens(*x));
                },
                _ => {},
            }
        }
    }
}

/// A node with several children cannot start `s` when, after the children
/// read so far (`done` of them, ending at `at`), the next child cannot start.
proof fn lemma_no_term_many(s: Seq<Tok>, done: Seq<Term>, at: int)
    requires
        s.len() > 0,
        (s[0] is Bin && done.len() < 2) || (s[0] is If && done.len() < 3),
        done.len() == 0 ==> at == 1,
        done.len() >= 1 ==> is_prefix(term_tokens(done[0]), s.skip(1)),
        done.len() == 1 ==> at == 1 + term_tokens(done[0]).len(),
        done.len() >= 2 ==> is_prefix(
            term_tokens(done[1]),
            s.skip(1 + term_tokens(done[0]).len() as int),
        ),
        done.len() == 2 ==> at == 1 + term_tokens(done[0]).len() + term_tokens(done[1]).len(),
        0 <= at <= s.len(),
        !starts_with_term(s.skip(at)),
    ensures
        !starts_with_term(s),
{
    assert forall|t: Term| !is_prefix(term_tokens(t), s) by {
        if is_prefix(term_tokens(t), s) {
            lemma_term_tokens_nonempty(t);
            let tt = term_tokens(t);
            assert(tt[0] == s[0]);
            match t {
                Term::Bin(_, x1, x2) => {
                    let a1 = term_tokens(*x1);
                    let a2 = term_tokens(*x2);
                    assert(tt == seq![tt[0]] + a1 + a2);
                    let e1: int = 1 + a1.len() as int;
                    assert(tt.subrange(1, e1) =~= a1);
                    lemma_piece_prefix(tt, s, 1, e1, a1);
                    if done.len() >= 1 {
                        law_prefix_unique(*x1, done[0], s.skip(1));
                        assert(tt.subrange(e1, tt.len() as int) =~= a2);
                        lemma_piece_prefix(tt, s, e1, tt.len() as int, a2);
                    }
                },
                Term::If(x1, x2, x3) => {
                    let a1 = term_tokens(*x1);
                    let a2 = term_tokens(*x2);
                    let a3 = term_tokens(*x3);
                    assert(tt == seq![tt[0]] + a1 + a2 + a3);
                    let e1: int = 1 + a1.len() as int;
                    let e2: int = e1 + a2.len();
                    assert(tt.subrange(1, e1) =~= a1);
                    lemma_piece_prefix(tt, s, 1, e1, a1);
                    if done.len() >= 1 {
                        law_prefix_unique(*x1, done[0], s.skip(1));
                        assert(tt.subrange(e1, e2) =~= a2);
                        lemma_piece_prefix(tt, s, e1, e2, a2);
                        if done.len() >= 2 {
                            law_prefix_unique(*x2, done[1], s.skip(e1));
                            assert(tt.subrange(e2, tt.len() as int) =~= a3);
                            lemma_piece_prefix(tt, s, e2, tt.len() as int, a3);
                        }
                    }
                },
                _ => {},
            }
        }
    }
}

/// The models of a token slice.
pub open spec fn slice_toks(v: &[Token]) -> Seq<Tok> {
    v@.map_values(|t: Token| t@)
}

impl Expr {
    /// Reads the expression that starts at token `pos`; on success, also the
    /// position just after it.
    #[verifier::rlimit(60)]
    fn parse_expr(tokens: &[Token], pos: usize) -> (r: Result<(Expr, usize), ParseError>)
        requires
            pos <= tokens@.len(),
        ensures
            r matches Ok((e, p)) ==> pos < p <= tokens@.len() && slice_toks(tokens).subrange(
                pos as int,
                p as int,
            ) == term_tokens(e.term()),
            r matches Err(err) ==> err == ParseError::InvalidExpr && !starts_with_term(
                slice_toks(tokens).skip(pos as int),
            ),
        decreases tokens@.len() - pos,
    {
        let ghost s = slice_toks(tokens).skip(pos as int);
        if pos >= tokens.len() {
            proof {
                lemma_no_term_in_empty(s);
            }
            return Err(ParseError::InvalidExpr);
        }
        let ghost all = slice_toks(tokens);
        assert(s[0] == tokens@[pos as int]@);
        match &tokens[pos] {
            Token::Bool(b) => {
                let e = Expr::Bool(*b);
                assert(all.subrange(pos as int, pos + 1) =~= term_tokens(e.term()));
                Ok((e, pos + 1))
            },
            Token::Int(n) => {
                let e = Expr::Int(n.copy());
                assert(all.subrange(pos as int, pos + 1) =~= term_tokens(e.term()));
                Ok((e, pos + 1))
            },
            Token::String(x) => {
                let e = Expr::String(x.clone());
                assert(all.subrange(pos as int, pos + 1) =~= term_tokens(e.term()));
                Ok((e, pos + 1))
            },
            Token::Var(v) => {
                let e = Expr::Var(*v);
                assert(all.subrange(pos as int, pos + 1) =~= term_tokens(e.term()));
                Ok((e, pos + 1))
            },
            Token::Un(op) => {
                match Self::parse_expr(tokens, pos + 1) {
                    Ok((a, p)) => {
                        let e = Expr::Un(*op, Box::new(a));
                        assert(all.subrange(pos as int, p as int) =~= term_tokens(e.term()));
                        Ok((e, p))
                    },
                    Err(err) => {
                        proof {
                            assert(s.skip(1) =~= all.skip(pos + 1));
                            lemma_no_term_one(s);
                        }
                        Err(err)
                    },
                }
            },
            Token::Lambda(v) => {
                match Self::parse_expr(tokens, pos + 1) {
                    Ok((a, p)) => {
                        let e = Expr::Lambda(*v, Box::new(a));
                        assert(all.subrange(pos as int, p as int) =~= term_tokens(e.term()));
                        Ok((e, p))
                    },
                    Err(err) => {
                        proof {
                            assert(s.skip(1) =~= all.skip(pos + 1));
                            lemma_no_term_one(s);
                        }
                        Err(err)
                    },
                }
            },
            Token::Bin(op) => {
                let (a, p1) = match Self::parse_expr(tokens, pos + 1) {
                    Ok(x) => x,
                    Err(err) => {
                        proof {
                            assert(s.skip(1) =~= all.skip(pos + 1));
                            lemma_no_term_many(s, Seq::<Term>::empty(), 1);
                        }
                        return Err(err);
                    },
                };
                proof {
                    lemma_prefix_of_range(all, pos + 1, p1 as int, a.term());
                    assert(s.skip(1) =~= all.skip(pos + 1));
                    assert(p1 - pos == 1 + term_tokens(a.term()).len());
                }
                match Self::parse_expr(tokens, p1) {
                    Ok((b, p2)) => {
                        let e = Expr::Bin(*op, Box::new(a), Box::new(b));
                        assert(all.subrange(pos as int, p2 as int) =~= term_tokens(e.term()));
                        Ok((e, p2))
                    },
                    Err(err) => {
                        proof {
                            assert(s.skip(p1 - pos) =~= all.skip(p1 as int));
                            lemma_no_term_many(s, seq![a.term()], p1 - pos);
                        }
                        Err(err)
                    },
                }
            },
            Token::If => {
                let (a, p1) = match Self::parse_expr(tokens, pos + 1) {
                    Ok(x) => x,
                    Err(err) => {
                        proof {
                            assert(s.skip(1) =~= all.skip(pos + 1));
                            lemma_no_term_many(s, Seq::<Term>::empty(), 1);
                        }
                        return Err(err);
                    },
                };
                proof {
                    lemma_prefix_of_range(all, pos + 1, p1 as int, a.term());
                    assert(s.skip(1) =~= all.skip(pos + 1));
                    assert(p1 - pos == 1 + term_tokens(a.term()).len());
                }
                let (b, p2) = match Self::parse_expr(tokens, p1) {
                    Ok(x) => x,
                    Err(err) => {
                        proof {
                            assert(s.skip(p1 - pos) =~= all.skip(p1 as int));
                            lemma_no_term_many(s, seq![a.term()], p1 - pos);
                        }
                        return Err(err);
                    },
                };
                proof {
                    lemma_prefix_of_range(all, p1 as int, p2 as int, b.term());
                    assert(s.skip(p1 - pos) =~= all.skip(p1 as int));
                    assert(p2 - pos == 1 + term_tokens(a.term()).len() + term_tokens(b.term()).len());
                }
                match Self::parse_expr(tokens, p2) {
                    Ok((c, p3)) => {
                        let e = Expr::If(Box::new(a), Box::new(b), Box::new(c));
                        assert(all.subrange(pos as int, p3 as int) =~= term_tokens(e.term()));
                        Ok((e, p3))
                    },
                    Err(err) => {
                        proof {
                            assert(s.skip(p2 - pos) =~= all.skip(p2 as int));
                            lemma_no_term_many(s, seq![a.term(), b.term()], p2 - pos);
                        }
                        Err(err)
                    },
                }
            },
        }
    }

    /// Reads an expression that spans all of `tokens`.
    pub fn parse_tokens(tokens: &[Token]) -> (r: Result<Expr, ParseError>)
        ensures
            r matches Ok(e) ==> term_tokens(e.term()) == slice_toks(tokens),
            r is Ok <==> exists|t: Term| term_tokens(t) == slice_toks(tokens),
            r == Err::<Expr, ParseError>(ParseError::ExtraTokens) <==> (starts_with_term(
                slice_toks(tokens),
            ) && !exists|t: Term| term_tokens(t) == slice_toks(tokens)),
            r == Err::<Expr, ParseError>(ParseError::InvalidExpr) <==> !starts_with_term(
                slice_toks(tokens),
            ),
    {
        let ghost all = slice_toks(tokens);
        assert(all.skip(0) == all);
        let (e, p) = match Self::parse_expr(tokens, 0) {
            Ok(x) => x,
            Err(err) => {
                assert forall|t: Term| term_tokens(t) != all by {
                    if term_tokens(t) == all {
                        assert(all.subrange(0, all.len() as int) == all);
                        assert(is_prefix(term_tokens(t), all));
                    }
                }
                return Err(err);
            },
        };
        assert(is_prefix(term_tokens(e.term()), all));
        if p < tokens.len() {
            assert forall|t: Term| term_tokens(t) != all by {
                if term_tokens(t) == all {
                    assert(all.subrange(0, all.len() as int) == all);
                    law_prefix_unique(t, e.term(), all);
                }
            }
            return Err(ParseError::ExtraTokens);
        }
        assert(all.subrange(0, p as int) == all);
        Ok(e)
    }
}

/// A term read from a range of tokens is a prefix of the tokens from there on.
proof fn lemma_prefix_of_range(all: Seq<Tok>, lo: int, hi: int, t: Term)
    requires
        0 <= lo < hi <= all.len(),
        all.subrange(lo, hi) == term_tokens(t),
    ensures
        is_prefix(term_tokens(t), all.skip(lo)),
{
    assert(all.skip(lo).subrange(0, hi - lo) =~= all.subrange(lo, hi));
}

/// The texts of the tokens `ts`, or the error of the first one that has none.
pub open spec fn toks_encode(ts: Seq<Tok>) -> Result<Seq<Seq<char>>, EncodeError>
    decreases ts.len(),
{
    if ts.len() == 0 {
        Ok(seq![])
    } else {
        match toks_encode(ts.drop_last()) {
            Err(e) => Err(e),
            Ok(ws) => match tok_encode(ts.last()) {
                Err(e) => Err(e),
                Ok(w) => Ok(ws.push(w)),
            },
        }
    }
}

/// The text of a term: the texts of its tokens, separated by single spaces.
pub open spec fn term_encode(t: Term) -> Result<Seq<char>, EncodeError> {
    match toks_encode(term_tokens(t)) {
        Ok(ws) => Ok(joined(ws)),
        Err(e) => Err(e),
    }
}

/// The term whose tokens are `ts`, or why there is none.
pub open spec fn term_of_toks(ts: Seq<Tok>) -> Result<Term, ParseError> {
    if exists|t: Term| term_tokens(t) == ts {
        Ok(choose|t: Term| term_tokens(t) == ts)
    } else if starts_with_term(ts) {
        Err(ParseError::ExtraTokens)
    } else {
        Err(ParseError::InvalidExpr)
    }
}

/// The term that a text denotes, or why there is none.
pub open spec fn text_parse(s: Seq<char>) -> Result<Term, ParseError> {
    match toks_parse(words(s)) {
        Err(e) => Err(e),
        Ok(ts) => term_of_toks(ts),
    }
}

/// The model of an expression result.
pub open spec fn expr_result(r: Result<Expr, ParseError>) -> Result<Term, ParseError> {
    match r {
        Ok(e) => Ok(e.term()),
        Err(e) => Err(e),
    }
}

/// The encoded form of an expression.
pub struct ExprEncoded<'a>(pub &'a Expr);

impl Expr {
    /// The encoded form of this expression.
    pub fn encoded(&self) -> (r: ExprEncoded<'_>)
        ensures
            r.0 == self,
    {
        ExprEncoded(self)
    }

    /// Reads the expression written in `s`: its words as tokens, and the
    /// tokens as one expression in prefix notation.
    pub fn from_str(s: &str) -> (r: Result<Expr, ParseError>)
        requires
            forall|i: int| 0 <= i < words(s@).len() ==> var_in_range(#[trigger] words(s@)[i]),
        ensures
            expr_result(r) == text_parse(s@),
    {
        let tokens = tokenize(s)?;
        let sl = tokens.as_slice();
        assert(slice_toks(sl) == toks_of(tokens@));
        let r = Self::parse_tokens(sl);
        proof {
            lemma_parse_result(slice_toks(sl), expr_result(r));
        }
        r
    }
}

/// What `parse_tokens` returns is `term_of_toks` of the tokens.
proof fn lemma_parse_result(ts: Seq<Tok>, r: Result<Term, ParseError>)
    requires
        r matches Ok(t) ==> term_tokens(t) == ts,
        r is Ok <==> exists|t: Term| term_tokens(t) == ts,
        r == Err::<Term, ParseError>(ParseError::ExtraTokens) <==> (starts_with_term(ts)
            && !exists|t: Term| term_tokens(t) == ts),
        r == Err::<Term, ParseError>(ParseError::InvalidExpr) <==> !starts_with_term(ts),
        r is Err ==> (r == Err::<Term, ParseError>(ParseError::ExtraTokens) || r == Err::<
            Term,
            ParseError,
        >(ParseError::InvalidExpr)),
    ensures
        r == term_of_toks(ts),
{
    if let Ok(t) = r {
        let c = choose|t: Term| term_tokens(t) == ts;
        assert(ts.subrange(0, ts.len() as int) == ts);
        law_prefix_unique(t, c, ts);
    }
}

impl<'a> ExprEncoded<'a> {
    /// The text of the expression: the texts of its tokens in prefix order,
    /// separated by single spaces.
    pub fn to_string(&self) -> (r: Result<String, EncodeError>)
        ensures
            text_of(r) == term_encode(self.0.term()),
    {
        let tokens = self.0.to_tokens();
        let ghost ts = toks_of(tokens@);
        assert(ts == term_tokens(self.0.term()));
        let ghost mut ws: Seq<Seq<char>> = seq![];
        let mut out = String::new();
        let mut i: usize = 0;
        assert(ts.take(0) =~= Seq::<Tok>::empty());
        while i < tokens.len()
            invariant
                i <= tokens.len(),
                ts == toks_of(tokens@),
                ts == term_tokens(self.0.term()),
                toks_encode(ts.take(i as int)) == Ok::<Seq<Seq<char>>, EncodeError>(ws),
                ws.len() == i,
                out@ == joined(ws),
            decreases tokens.len() - i,
        {
            assert(ts.take(i + 1).drop_last() == ts.take(i as int));
            assert(ts.take(i + 1).last() == tokens@[i as int]@);
            let w = match tokens[i].encoded().to_string() {
                Ok(w) => w,
                Err(e) => {
                    proof {
                        lemma_toks_encode_err(ts, i as int, e);
                        assert(term_encode(self.0.term()) == Err::<Seq<char>, EncodeError>(e));
                    }
                    return Err(e);
                },
            };
            if i > 0 {
                push_char(&mut out, ' ');
            }
            let cs = chars_of(w.as_str());
            push_all(&mut out, &cs);
            proof {
                lemma_joined_push(ws, w@);
                if i > 0 {
                    assert(out@ =~= joined(ws) + seq![' '] + w@);
                } else {
                    assert(out@ =~= w@);
                }
                ws = ws.push(w@);
            }
            i = i + 1;
        }
        assert(ts.take(tokens.len() as int) == ts);
        Ok(out)
    }
}

/// Joining one more word appends a space and the word.
proof fn lemma_joined_push(ws: Seq<Seq<char>>, w: Seq<char>)
    ensures
        joined(ws.push(w)) == if ws.len() == 0 {
            w
        } else {
            joined(ws) + seq![' '] + w
        },
{
    assert(ws.push(w).drop_last() == ws);
    if ws.len() == 0 {
        assert(ws.push(w).len() == 1);
    }
}

/// A token without text makes the whole sequence fail with its error.
proof fn lemma_toks_encode_err(ts: Seq<Tok>, i: int, e: EncodeError)
    requires
        0 <= i < ts.len(),
        toks_encode(ts.take(i)) is Ok,
        tok_encode(ts[i]) == Err::<Seq<char>, EncodeError>(e),
    ensures
        toks_encode(ts) == Err::<Seq<Seq<char>>, EncodeError>(e),
    decreases ts.len(),
{
    if i == ts.len() - 1 {
        assert(ts.drop_last() == ts.take(i));
    } else {
        assert(ts.drop_last().take(i) == ts.take(i));
        lemma_toks_encode_err(ts.drop_last(), i, e);
    }
}

/// Every character of `s` has a code below 256.
pub open spec fn narrow(s: Seq<char>) -> bool {
    forall|i: int| 0 <= i < s.len() ==> (#[trigger] s[i]) as u32 <= 255
}

/// A string token holds only characters with codes below 256.
pub open spec fn narrow_tok(t: Tok) -> bool {
    t matches Tok::Str(s) ==> narrow(s)
}

/// Every string in the term holds only characters with codes below 256.
pub open spec fn narrow_strings(t: Term) -> bool
    decreases t,
{
    match t {
        Term::Str(s) => narrow(s),
        Term::Un(_, e) => narrow_strings(*e),
        Term::Bin(_, l, r) => narrow_strings(*l) && narrow_strings(*r),
        Term::If(c, a, b) => narrow_strings(*c) && narrow_strings(*a) && narrow_strings(*b),
        Term::Lambda(_, e) => narrow_strings(*e),
        _ => true,
    }
}

/// The tokens of a term with narrow strings are narrow.
proof fn lemma_narrow_tokens(t: Term)
    requires
        narrow_strings(t),
    ensures
        forall|i: int| 0 <= i < term_tokens(t).len() ==> narrow_tok(#[trigger] term_tokens(t)[i]),
    decreases t,
{
    match t {
        Term::Un(_, e) => {
            lemma_narrow_tokens(*e);
            let ts = term_tokens(t);
            assert forall|i: int| 0 <= i < ts.len() implies narrow_tok(#[trigger] ts[i]) by {
                if i >= 1 {
                    assert(ts[i] == term_tokens(*e)[i - 1]);
                }
            }
        },
        Term::Lambda(_, e) => {
            lemma_narrow_tokens(*e);
            let ts = term_tokens(t);
            assert forall|i: int| 0 <= i < ts.len() implies narrow_tok(#[trigger] ts[i]) by {
                if i >= 1 {
                    assert(ts[i] == term_tokens(*e)[i - 1]);
                }
            }
        },
        Term::Bin(_, l, r) => {
            lemma_narrow_tokens(*l);
            lemma_narrow_tokens(*r);
            let ts = term_tokens(t);
            let a = term_tokens(*l);
            assert forall|i: int| 0 <= i < ts.len() implies narrow_tok(#[trigger] ts[i]) by {
                if 1 <= i < 1 + a.len() {
                    assert(ts[i] == a[i - 1]);
                } else if i >= 1 + a.len() {
                    assert(ts[i] == term_tokens(*r)[i - 1 - a.len()]);
                }
            }
        },
        Term::If(c, x, y) => {
            lemma_narrow_tokens(*c);
            lemma_narrow_tokens(*x);
            lemma_narrow_tokens(*y);
            let ts = term_tokens(t);
            let a = term_tokens(*c);
            let b = term_tokens(*x);
            assert forall|i: int| 0 <= i < ts.len() implies narrow_tok(#[trigger] ts[i]) by {
                if 1 <= i < 1 + a.len() {
                    assert(ts[i] == a[i - 1]);
                } else if 1 + a.len() <= i < 1 + a.len() + b.len() {
                    assert(ts[i] == b[i - 1 - a.len()]);
                } else if i >= 1 + a.len() + b.len() {
                    assert(ts[i] == term_tokens(*y)[i - 1 - a.len() - b.len()]);
                }
            }
        },
        _ => {},
    }
}

/// A word of digits after a kind character has no white space.
proof fn lemma_word_no_ws(c: char, rest: Seq<char>)
    requires
        !is_ws(c),
        all_digits(rest),
    ensures
        no_ws(seq![c] + rest),
        (seq![c] + rest).len() > 0,
        (seq![c] + rest)[0] == c,
        (seq![c] + rest).drop_first() == rest,
{
    let w = seq![c] + rest;
    assert(w.drop_first() =~= rest);
    assert forall|i: int| 0 <= i < w.len() implies !is_ws(#[trigger] w[i]) by {
        if i > 0 {
            assert(w[i] == rest[i - 1]);
            assert(is_digit(rest[i - 1]));
        }
    }
}

/// A token's text reads back as the token: `Token::from_str` undoes
/// `TokenEncoded::to_string`, for string tokens of narrow characters.
pub proof fn law_token_roundtrip(t: Tok)
    requires
        tok_encode(t) is Ok,
        narrow_tok(t),
    ensures
        tok_parse(tok_encode(t)->Ok_0) == Ok::<Tok, ParseError>(t),
        var_in_range(tok_encode(t)->Ok_0),
        tok_encode(t)->Ok_0.len() > 0,
        no_ws(tok_encode(t)->Ok_0),
{
    let w = tok_encode(t)->Ok_0;
    match t {
        Tok::Bool(b) => {
            lemma_word_no_ws(if b { 'T' } else { 'F' }, Seq::<char>::empty());
            assert(w =~= seq![if b { 'T' } else { 'F' }] + Seq::<char>::empty());
        },
        Tok::Int(n) => {
            law_numeral_roundtrip(n as nat);
            lemma_word_no_ws('I', numeral_of(n as nat));
        },
        Tok::Str(x) => {
            law_str_roundtrip(x);
            lemma_word_no_ws('S', encoded(x));
        },
        Tok::Un(op) => {
            lemma_word_no_ws('U', Seq::<char>::empty());
            assert(w.drop_first() =~= seq![un_code(op)]);
            assert forall|i: int| 0 <= i < w.len() implies !is_ws(#[trigger] w[i]) by {}
        },
        Tok::Bin(op) => {
            assert(w.drop_first() =~= seq![bin_code(op)]);
            assert forall|i: int| 0 <= i < w.len() implies !is_ws(#[trigger] w[i]) by {}
        },
        Tok::If => {
            lemma_word_no_ws('?', Seq::<char>::empty());
            assert(w =~= seq!['?'] + Seq::<char>::empty());
        },
        Tok::Lambda(v) => {
            law_numeral_roundtrip(v as nat);
            lemma_word_no_ws('L', numeral_of(v as nat));
        },
        Tok::Var(v) => {
            law_numeral_roundtrip(v as nat);
            lemma_word_no_ws('v', numeral_of(v as nat));
        },
    }
}

/// The texts of narrow tokens read back as the tokens.
pub proof fn law_toks_roundtrip(ts: Seq<Tok>)
    requires
        toks_encode(ts) is Ok,
        forall|i: int| 0 <= i < ts.len() ==> narrow_tok(#[trigger] ts[i]),
    ensures
        toks_parse(toks_encode(ts)->Ok_0) == Ok::<Seq<Tok>, ParseError>(ts),
        toks_encode(ts)->Ok_0.len() == ts.len(),
        forall|i: int|
            0 <= i < ts.len() ==> (#[trigger] toks_encode(ts)->Ok_0[i]).len() > 0 && no_ws(
                toks_encode(ts)->Ok_0[i],
            ) && var_in_range(toks_encode(ts)->Ok_0[i]),
    decreases ts.len(),
{
    if ts.len() == 0 {
        assert(ts =~= Seq::<Tok>::empty());
    } else {
        let init = ts.drop_last();
        assert forall|i: int| 0 <= i < init.len() implies narrow_tok(#[trigger] init[i]) by {
            assert(init[i] == ts[i]);
        }
        law_toks_roundtrip(init);
        law_token_roundtrip(ts.last());
        let ws = toks_encode(ts)->Ok_0;
        assert(ws.drop_last() == toks_encode(init)->Ok_0);
        assert(ws.last() == tok_encode(ts.last())->Ok_0);
        assert(init.push(ts.last()) =~= ts);
        assert(toks_parse(ws) == Ok::<Seq<Tok>, ParseError>(init.push(ts.last())));
        assert forall|i: int|
            0 <= i < ts.len() implies (#[trigger] ws[i]).len() > 0 && no_ws(ws[i]) && var_in_range(
            ws[i],
        ) by {
            if i < ts.len() - 1 {
                assert(ws[i] == toks_encode(init)->Ok_0[i]);
            }
        }
    }
}

/// Reading back the text of an expression gives the expression: `Expr::from_str`
/// undoes `ExprEncoded::to_string`, for expressions whose strings are narrow
/// (and which have a text at all: no negative integers, strings within the
/// alphabet, variable numbers within `i64`). The text also meets the
/// requirement of `Expr::from_str`.
pub proof fn law_text_roundtrip(t: Term)
    requires
        term_encode(t) is Ok,
        narrow_strings(t),
    ensures
        text_parse(term_encode(t)->Ok_0) == Ok::<Term, ParseError>(t),
        forall|i: int|
            0 <= i < words(term_encode(t)->Ok_0).len() ==> var_in_range(
                #[trigger] words(term_encode(t)->Ok_0)[i],
            ),
{
    let ts = term_tokens(t);
    lemma_narrow_tokens(t);
    law_toks_roundtrip(ts);
    let ws = toks_encode(ts)->Ok_0;
    law_words_of_joined(ws);
    assert(words(term_encode(t)->Ok_0) == ws);
    let c = choose|u: Term| term_tokens(u) == ts;
    assert(ts.subrange(0, ts.len() as int) == ts);
    law_prefix_unique(t, c, ts);
}

} // verus!
