//! Evaluation of expressions to normal form.
//!
//! Evaluation is call by name for `App` (the argument is substituted
//! unevaluated) and call by value for `AppV`. Substitution replaces the free
//! occurrences of the bound variable and stops at a lambda that binds the same
//! variable; it does not rename bound variables.
//!
//! `fuel` bounds how deeply beta reductions may nest; `eval` gives the most
//! that a `u64` holds.
use vstd::prelude::*;

use crate::base94::{
    all_digits, decode_base94, decode_char, encodable, encode_base94, encode_str, encoded, is_digit,
    lemma_encoded_digits, numeral_value, ALPHABET,
};
use crate::bignum::{trunc_div, trunc_rem, BigNum};
use crate::expr::{BinOp, Expr, Term, UnOp};
use crate::text::{chars_of, push_char, reversed, string_of};

verus! {

/// Why evaluation stopped without a value.
#[derive(Debug, Clone, Copy, PartialEq, Eq)]
pub enum EvalError {
    /// The operand of a unary operator has the wrong kind.
    InvalidUnaryOperand(UnOp),
    /// The operands of a binary operator have the wrong kinds.
    InvalidBinaryOperands(BinOp),
    /// The function of an application is not a lambda.
    NotAFunction,
    /// The condition of an `if` is not a boolean.
    InvalidCondition,
    /// Division or remainder by zero.
    DivisionByZero,
    /// The count of a `take` or `drop` is negative or beyond `usize`.
    CountOutOfRange,
    /// `str-to-int` met a character outside the string alphabet.
    UnencodableString,
    /// The lazy application operator `~` is not evaluated.
    UnsupportedOperator,
    /// Beta reductions nested deeper than the fuel allows.
    OutOfFuel,
}

/// The term with the free occurrences of variable `v` replaced by `arg`.
pub open spec fn subst(t: Term, v: usize, arg: Term) -> Term
    decreases t,
{
    match t {
        Term::Var(w) => if w == v {
            arg
        } else {
            t
        },
        Term::Un(op, e) => Term::Un(op, Box::new(subst(*e, v, arg))),
        Term::Bin(op, l, r) => Term::Bin(op, Box::new(subst(*l, v, arg)), Box::new(subst(*r, v, arg))),
        Term::If(c, a, b) => Term::If(
            Box::new(subst(*c, v, arg)),
            Box::new(subst(*a, v, arg)),
            Box::new(subst(*b, v, arg)),
        ),
        Term::Lambda(w, e) => if w == v {
            t
        } else {
            Term::Lambda(w, Box::new(subst(*e, v, arg)))
        },
        _ => t,
    }
}

/// The string that `int-to-str` gives: the base-94 digits of `n` through the
/// alphabet, most significant first; empty for `n <= 0`.
pub open spec fn int_text(n: int) -> Seq<char>
    decreases n,
{
    if n <= 0 {
        seq![]
    } else {
        int_text(n / 94).push(ALPHABET@[n % 94])
    }
}

/// The integer that `str-to-int` gives for a string of the alphabet.
pub open spec fn str_value(s: Seq<char>) -> int {
    numeral_value(encoded(s))
}

/// The result of a unary operator on a value.
pub open spec fn un_apply(op: UnOp, v: Term) -> Result<Term, EvalError> {
    match (op, v) {
        (UnOp::Neg, Term::Int(n)) => Ok(Term::Int(-n)),
        (UnOp::Not, Term::Bool(b)) => Ok(Term::Bool(!b)),
        (UnOp::StrToInt, Term::Str(s)) => if encodable(s) {
            Ok(Term::Int(str_value(s)))
        } else {
            Err(EvalError::UnencodableString)
        },
        (UnOp::IntToStr, Term::Int(n)) => Ok(Term::Str(int_text(n))),
        _ => Err(EvalError::InvalidUnaryOperand(op)),
    }
}

/// The smaller of two integers.
pub open spec fn min(a: int, b: int) -> int {
    if a <= b {
        a
    } else {
        b
    }
}

/// The result of a binary operator other than the applications on two values.
pub open spec fn bin_apply(op: BinOp, l: Term, r: Term) -> Result<Term, EvalError> {
    let bad = Err(EvalError::InvalidBinaryOperands(op));
    match op {
        BinOp::Add => match (l, r) {
            (Term::Int(a), Term::Int(b)) => Ok(Term::Int(a + b)),
            _ => bad,
        },
        BinOp::Sub => match (l, r) {
            (Term::Int(a), Term::Int(b)) => Ok(Term::Int(a - b)),
            _ => bad,
        },
        BinOp::Mul => match (l, r) {
            (Term::Int(a), Term::Int(b)) => Ok(Term::Int(a * b)),
            _ => bad,
        },
        BinOp::Div => match (l, r) {
            (Term::Int(a), Term::Int(b)) => if b == 0 {
                Err(EvalError::DivisionByZero)
            } else {
                Ok(Term::Int(trunc_div(a, b)))
            },
            _ => bad,
        },
        BinOp::Mod => match (l, r) {
            (Term::Int(a), Term::Int(b)) => if b == 0 {
                Err(EvalError::DivisionByZero)
            } else {
                Ok(Term::Int(trunc_rem(a, b)))
            },
            _ => bad,
        },
        BinOp::Lt => match (l, r) {
            (Term::Int(a), Term::Int(b)) => Ok(Term::Bool(a < b)),
            _ => bad,
        },
        BinOp::Gt => match (l, r) {
            (Term::Int(a), Term::Int(b)) => Ok(Term::Bool(a > b)),
            _ => bad,
        },
        BinOp::Eq => match (l, r) {
            (Term::Int(a), Term::Int(b)) => Ok(Term::Bool(a == b)),
            (Term::Str(a), Term::Str(b)) => Ok(Term::Bool(a == b)),
            (Term::Bool(a), Term::Bool(b)) => Ok(Term::Bool(a == b)),
            _ => bad,
        },
        BinOp::Or => match (l, r) {
            (Term::Bool(a), Term::Bool(b)) => Ok(Term::Bool(a || b)),
            _ => bad,
        },
        BinOp::And => match (l, r) {
            (Term::Bool(a), Term::Bool(b)) => Ok(Term::Bool(a && b)),
            _ => bad,
        },
        BinOp::Concat => match (l, r) {
            (Term::Str(a), Term::Str(b)) => Ok(Term::Str(a + b)),
            _ => bad,
        },
        BinOp::Take => match (l, r) {
            (Term::Int(n), Term::Str(s)) => if 0 <= n <= usize::MAX {
                Ok(Term::Str(s.take(min(n, s.len() as int))))
            } else {
                Err(EvalError::CountOutOfRange)
            },
            _ => bad,
        },
        BinOp::Drop => match (l, r) {
            (Term::Int(n), Term::Str(s)) => if 0 <= n <= usize::MAX {
                Ok(Term::Str(s.skip(min(n, s.len() as int))))
            } else {
                Err(EvalError::CountOutOfRange)
            },
            _ => bad,
        },
        _ => Err(EvalError::UnsupportedOperator),
    }
}

/// Evaluation of `t` with `fuel`: the result, and the number of beta
/// reductions made on the way (including those before an error).
pub open spec fn eval_run(t: Term, fuel: nat) -> (Result<Term, EvalError>, nat)
    decreases fuel, t,
{
    match t {
        Term::Un(op, e) => {
            let (r, n) = eval_run(*e, fuel);
            match r {
                Err(x) => (Err(x), n),
                Ok(v) => (un_apply(op, v), n),
            }
        },
        Term::Bin(op, l, r) => if op == BinOp::App {
            let (rf, n) = eval_run(*l, fuel);
            match rf {
                Err(x) => (Err(x), n),
                Ok(f) => match f {
                    Term::Lambda(v, body) => if fuel == 0 {
                        (Err(EvalError::OutOfFuel), n)
                    } else {
                        let (rb, m) = eval_run(subst(*body, v, *r), (fuel - 1) as nat);
                        (rb, n + 1 + m)
                    },
                    _ => (Err(EvalError::NotAFunction), n),
                },
            }
        } else if op == BinOp::AppV {
            let (rf, n) = eval_run(*l, fuel);
            match rf {
                Err(x) => (Err(x), n),
                Ok(f) => {
                    let (rg, m) = eval_run(*r, fuel);
                    match rg {
                        Err(x) => (Err(x), n + m),
                        Ok(g) => match f {
                            Term::Lambda(v, body) => if fuel == 0 {
                                (Err(EvalError::OutOfFuel), n + m)
                            } else {
                                let (rb, k) = eval_run(subst(*body, v, g), (fuel - 1) as nat);
                                (rb, n + m + 1 + k)
                            },
                            _ => (Err(EvalError::NotAFunction), n + m),
                        },
                    }
                },
            }
        } else {
            let (ra, n) = eval_run(*l, fuel);
            match ra {
                Err(x) => (Err(x), n),
                Ok(a) => {
                    let (rb, m) = eval_run(*r, fuel);
                    match rb {
                        Err(x) => (Err(x), n + m),
                        Ok(b) => (bin_apply(op, a, b), n + m),
                    }
                },
            }
        },
        Term::If(c, a, b) => {
            let (rc, n) = eval_run(*c, fuel);
            match rc {
                Err(x) => (Err(x), n),
                Ok(v) => match v {
                    Term::Bool(true) => {
                        let (ra, m) = eval_run(*a, fuel);
                        (ra, n + m)
                    },
                    Term::Bool(false) => {
                        let (rb, m) = eval_run(*b, fuel);
                        (rb, n + m)
                    },
                    _ => (Err(EvalError::InvalidCondition), n),
                },
            }
        },
        _ => (Ok(t), 0),
    }
}

/// The value of `t` evaluated with `fuel`, or why there is none.
pub open spec fn eval_term(t: Term, fuel: nat) -> Result<Term, EvalError> {
    eval_run(t, fuel).0
}

/// A count that stops at the largest `usize`.
pub open spec fn capped(x: int) -> int {
    if x > usize::MAX {
        usize::MAX as int
    } else {
        x
    }
}

/// Counts kept while evaluating.
pub struct Stats {
    pub beta_reductions: usize,
}

impl Default for Stats {
    fn default() -> (r: Stats)
        ensures
            r.beta_reductions == 0,
    {
        Stats { beta_reductions: 0 }
    }
}

/// The model of an evaluation result.
pub open spec fn eval_result(r: Result<Expr, EvalError>) -> Result<Term, EvalError> {
    match r {
        Ok(e) => Ok(e.term()),
        Err(x) => Err(x),
    }
}

/// The integer whose base-94 numeral is the encoding of `s` (`str-to-int`).
pub fn str_to_int(s: &str) -> (r: BigNum)
    requires
        encodable(s@),
    ensures
        r@ == str_value(s@),
{
    let t = match encode_str(s) {
        Ok(t) => t,
        Err(_) => String::new(),
    };
    proof {
        lemma_encoded_digits(s@);
    }
    let cs = chars_of(t.as_str());
    let base = BigNum::from_i64(94);
    let mut ret = BigNum::zero();
    let mut i: usize = 0;
    while i < cs.len()
        invariant
            i <= cs.len(),
            cs@ == encoded(s@),
            all_digits(cs@),
            base@ == 94,
            ret@ == numeral_value(cs@.take(i as int)),
        decreases cs.len() - i,
    {
        assert(is_digit(cs@[i as int]));
        let d = match decode_base94(cs[i]) {
            Ok(d) => d,
            Err(_) => 0,
        };
        assert(cs@.take(i + 1).drop_last() == cs@.take(i as int));
        ret = ret.mul(&base).add(&BigNum::from_i64(d));
        i = i + 1;
    }
    assert(cs@.take(cs.len() as int) == cs@);
    ret
}

/// The string whose alphabet digits, read in base 94, give `n`
/// (`int-to-str`); empty when `n` is not positive.
pub fn int_to_str(n: &BigNum) -> (r: String)
    ensures
        r@ == int_text(n@),
{
    let zero = BigNum::zero();
    let base = BigNum::from_i64(94);
    let mut rev: Vec<char> = Vec::new();
    let mut m = n.copy();
    while zero.lt(&m)
        invariant
            zero@ == 0,
            base@ == 94,
            m@ > 0 ==> int_text(n@) == int_text(m@) + reversed(rev@),
            m@ <= 0 ==> int_text(n@) == reversed(rev@),
        decreases if m@ > 0 { m@ } else { 0 },
    {
        let q = m.div(&base);
        let r = m.sub(&q.mul(&base));
        assert(q@ == m@ / 94);
        assert(r@ == m@ % 94);
        let d = match r.to_i64() {
            Some(d) => d,
            None => 0,
        };
        let c = match encode_base94(d) {
            Ok(x) => match decode_char(x) {
                Ok(y) => y,
                Err(_) => ' ',
            },
            Err(_) => ' ',
        };
        assert(c == ALPHABET@[m@ % 94]);
        let ghost old_rev = rev@;
        rev.push(c);
        assert(reversed(rev@) =~= seq![c] + reversed(old_rev));
        assert(int_text(m@) == int_text(m@ / 94).push(c));
        proof {
            if m@ / 94 <= 0 {
                assert(int_text(m@ / 94) == Seq::<char>::empty());
            }
        }
        m = q;
    }
    let mut out: Vec<char> = Vec::new();
    let mut i = rev.len();
    while i > 0
        invariant
            i <= rev.len(),
            out@ == reversed(rev@.skip(i as int)),
        decreases i,
    {
        i = i - 1;
        assert(reversed(rev@.skip(i as int)) =~= reversed(rev@.skip(i + 1)).push(rev@[i as int]));
        out.push(rev[i]);
    }
    assert(rev@.skip(0) == rev@);
    string_of(&out)
}

/// `x` occurs in `v`.
fn contains_var(v: &Vec<usize>, x: usize) -> (r: bool)
    ensures
        r == v@.contains(x),
{
    let mut i: usize = 0;
    while i < v.len()
        invariant
            i <= v.len(),
            forall|j: int| 0 <= j < i ==> v@[j] != x,
        decreases v.len() - i,
    {
        if v[i] == x {
            return true;
        }
        i = i + 1;
    }
    false
}

/// Substitutes `arg` for the free occurrences of `v` in `e`, unless `v` is in
/// `shadow` (bound by an enclosing lambda), in which case `e` is unchanged.
fn beta_reduction(e: &Expr, v: usize, arg: &Expr, shadow: &mut Vec<usize>) -> (r: Expr)
    ensures
        r.term() == if old(shadow)@.contains(v) {
            e.term()
        } else {
            subst(e.term(), v, arg.term())
        },
        final(shadow)@ == old(shadow)@,
    decreases e,
{
    match e {
        Expr::Var(w) => {
            if v == *w && !contains_var(shadow, *w) {
                arg.copy()
            } else {
                e.copy()
            }
        },
        Expr::Un(op, x) => Expr::Un(*op, Box::new(beta_reduction(x, v, arg, shadow))),
        Expr::Bin(op, l, r) => {
            let a = beta_reduction(l, v, arg, shadow);
            let b = beta_reduction(r, v, arg, shadow);
            Expr::Bin(*op, Box::new(a), Box::new(b))
        },
        Expr::If(c, t, f) => {
            let a = beta_reduction(c, v, arg, shadow);
            let b = beta_reduction(t, v, arg, shadow);
            let d = beta_reduction(f, v, arg, shadow);
            Expr::If(Box::new(a), Box::new(b), Box::new(d))
        },
        Expr::Lambda(w, x) => {
            let ghost before = shadow@;
            shadow.push(*w);
            assert(shadow@.contains(v) == (before.contains(v) || *w == v)) by {
                if *w == v {
                    assert(shadow@[before.len() as int] == v);
                }
                if before.contains(v) {
                    let k = choose|k: int| 0 <= k < before.len() && before[k] == v;
                    assert(shadow@[k] == v);
                }
            }
            let y = beta_reduction(x, v, arg, shadow);
            shadow.pop();
            assert(shadow@ =~= before);
            Expr::Lambda(*w, Box::new(y))
        },
        _ => e.copy(),
    }
}

/// Applies a unary operator to a value.
fn apply_un(op: UnOp, v: Expr) -> (r: Result<Expr, EvalError>)
    ensures
        eval_result(r) == un_apply(op, v.term()),
{
    match (op, v) {
        (UnOp::Neg, Expr::Int(n)) => Ok(Expr::Int(n.neg())),
        (UnOp::Not, Expr::Bool(b)) => Ok(Expr::Bool(!b)),
        (UnOp::StrToInt, Expr::String(s)) => {
            match encode_str(s.as_str()) {
                Ok(_) => Ok(Expr::Int(str_to_int(s.as_str()))),
                Err(_) => Err(EvalError::UnencodableString),
            }
        },
        (UnOp::IntToStr, Expr::Int(n)) => Ok(Expr::String(int_to_str(&n))),
        _ => Err(EvalError::InvalidUnaryOperand(op)),
    }
}

/// The first `n` characters of `s`, or all of them when it is shorter.
fn take_chars(s: &String, n: usize) -> (r: String)
    ensures
        r@ == s@.take(min(n as int, s@.len() as int)),
{
    let cs = chars_of(s.as_str());
    let k = if n < cs.len() {
        n
    } else {
        cs.len()
    };
    let mut out: Vec<char> = Vec::new();
    let mut i: usize = 0;
    while i < k
        invariant
            k <= cs.len(),
            i <= k,
            out@ == cs@.take(i as int),
        decreases k - i,
    {
        out.push(cs[i]);
        assert(cs@.take(i + 1) == cs@.take(i as int).push(cs@[i as int]));
        i = i + 1;
    }
    string_of(&out)
}

/// The characters of `s` after the first `n`, or none when it is shorter.
fn drop_chars(s: &String, n: usize) -> (r: String)
    ensures
        r@ == s@.skip(min(n as int, s@.len() as int)),
{
    let cs = chars_of(s.as_str());
    let k = if n < cs.len() {
        n
    } else {
        cs.len()
    };
    let mut out: Vec<char> = Vec::new();
    let mut i: usize = k;
    while i < cs.len()
        invariant
            k <= i <= cs.len(),
            out@ == cs@.subrange(k as int, i as int),
        decreases cs.len() - i,
    {
        out.push(cs[i]);
        assert(cs@.subrange(k as int, i + 1) == cs@.subrange(k as int, i as int).push(cs@[i as int]));
        i = i + 1;
    }
    assert(cs@.subrange(k as int, cs.len() as int) == cs@.skip(k as int));
    string_of(&out)
}

/// `s` followed by `t`.
fn concat_strings(s: &String, t: &String) -> (r: String)
    ensures
        r@ == s@ + t@,
{
    let mut out = s.clone();
    let cs = chars_of(t.as_str());
    let mut i: usize = 0;
    while i < cs.len()
        invariant
            i <= cs.len(),
            out@ == s@ + cs@.take(i as int),
        decreases cs.len() - i,
    {
        push_char(&mut out, cs[i]);
        assert(cs@.take(i + 1) == cs@.take(i as int).push(cs@[i as int]));
        i = i + 1;
    }
    assert(cs@.take(cs.len() as int) == cs@);
    out
}

/// Applies a binary operator other than the applications to two values.
fn apply_bin(op: BinOp, a: Expr, b: Expr) -> (r: Result<Expr, EvalError>)
    ensures
        eval_result(r) == bin_apply(op, a.term(), b.term()),
{
    let bad = Err(EvalError::InvalidBinaryOperands(op));
    match op {
        BinOp::Add => match (a, b) {
            (Expr::Int(x), Expr::Int(y)) => Ok(Expr::Int(x.add(&y))),
            _ => bad,
        },
        BinOp::Sub => match (a, b) {
            (Expr::Int(x), Expr::Int(y)) => Ok(Expr::Int(x.sub(&y))),
            _ => bad,
        },
        BinOp::Mul => match (a, b) {
            (Expr::Int(x), Expr::Int(y)) => Ok(Expr::Int(x.mul(&y))),
            _ => bad,
        },
        BinOp::Div => match (a, b) {
            (Expr::Int(x), Expr::Int(y)) => {
                if y.eq_value(&BigNum::zero()) {
                    Err(EvalError::DivisionByZero)
                } else {
                    Ok(Expr::Int(x.div(&y)))
                }
            },
            _ => bad,
        },
        BinOp::Mod => match (a, b) {
            (Expr::Int(x), Expr::Int(y)) => {
                if y.eq_value(&BigNum::zero()) {
                    Err(EvalError::DivisionByZero)
                } else {
                    Ok(Expr::Int(x.rem(&y)))
                }
            },
            _ => bad,
        },
        BinOp::Lt => match (a, b) {
            (Expr::Int(x), Expr::Int(y)) => Ok(Expr::Bool(x.lt(&y))),
            _ => bad,
        },
        BinOp::Gt => match (a, b) {
            (Expr::Int(x), Expr::Int(y)) => Ok(Expr::Bool(y.lt(&x))),
            _ => bad,
        },
        BinOp::Eq => match (a, b) {
            (Expr::Int(x), Expr::Int(y)) => Ok(Expr::Bool(x.eq_value(&y))),
            (Expr::String(x), Expr::String(y)) => Ok(Expr::Bool(x == y)),
            (Expr::Bool(x), Expr::Bool(y)) => Ok(Expr::Bool(x == y)),
            _ => bad,
        },
        BinOp::Or => match (a, b) {
            (Expr::Bool(x), Expr::Bool(y)) => Ok(Expr::Bool(x || y)),
            _ => bad,
        },
        BinOp::And => match (a, b) {
            (Expr::Bool(x), Expr::Bool(y)) => Ok(Expr::Bool(x && y)),
            _ => bad,
        },
        BinOp::Concat => match (a, b) {
            (Expr::String(x), Expr::String(y)) => Ok(Expr::String(concat_strings(&x, &y))),
            _ => bad,
        },
        BinOp::Take => match (a, b) {
            (Expr::Int(n), Expr::String(x)) => match n.to_usize() {
                Some(k) => Ok(Expr::String(take_chars(&x, k))),
                None => Err(EvalError::CountOutOfRange),
            },
            _ => bad,
        },
        BinOp::Drop => match (a, b) {
            (Expr::Int(n), Expr::String(x)) => match n.to_usize() {
                Some(k) => Ok(Expr::String(drop_chars(&x, k))),
                None => Err(EvalError::CountOutOfRange),
            },
            _ => bad,
        },
        _ => Err(EvalError::UnsupportedOperator),
    }
}

/// Evaluates `e` to normal form (see `eval_run`), adding the beta
/// reductions made to `stats` (the count stops at the largest `usize`).
pub fn reduce_to_nf(e: &Expr, fuel: u64, stats: &mut Stats) -> (r: Result<Expr, EvalError>)
    ensures
        eval_result(r) == eval_run(e.term(), fuel as nat).0,
        final(stats).beta_reductions == capped(old(stats).beta_reductions + eval_run(e.term(), fuel as nat).1),
    decreases fuel, e,
{
    match e {
        Expr::Un(op, x) => {
            match reduce_to_nf(x, fuel, stats) {
                Err(err) => Err(err),
                Ok(v) => apply_un(*op, v),
            }
        },
        Expr::Bin(op, l, r) => {
            match op {
                BinOp::App => {
                    let f = match reduce_to_nf(l, fuel, stats) {
                        Err(err) => {
                            return Err(err);
                        },
                        Ok(f) => f,
                    };
                    match f {
                        Expr::Lambda(v, body) => {
                            if fuel == 0 {
                                Err(EvalError::OutOfFuel)
                            } else {
                                count_beta(stats);
                                let mut shadow: Vec<usize> = Vec::new();
                                let b = beta_reduction(&body, v, r, &mut shadow);
                                reduce_to_nf(&b, fuel - 1, stats)
                            }
                        },
                        _ => Err(EvalError::NotAFunction),
                    }
                },
                BinOp::AppV => {
                    let f = match reduce_to_nf(l, fuel, stats) {
                        Err(err) => {
                            return Err(err);
                        },
                        Ok(f) => f,
                    };
                    let g = match reduce_to_nf(r, fuel, stats) {
                        Err(err) => {
                            return Err(err);
                        },
                        Ok(g) => g,
                    };
                    match f {
                        Expr::Lambda(v, body) => {
                            if fuel == 0 {
                                Err(EvalError::OutOfFuel)
                            } else {
                                count_beta(stats);
                                let mut shadow: Vec<usize> = Vec::new();
                                let b = beta_reduction(&body, v, &g, &mut shadow);
                                reduce_to_nf(&b, fuel - 1, stats)
                            }
                        },
                        _ => Err(EvalError::NotAFunction),
                    }
                },
                _ => {
                    let a = match reduce_to_nf(l, fuel, stats) {
                        Err(err) => {
                            return Err(err);
                        },
                        Ok(a) => a,
                    };
                    let b = match reduce_to_nf(r, fuel, stats) {
                        Err(err) => {
                            return Err(err);
                        },
                        Ok(b) => b,
                    };
                    apply_bin(*op, a, b)
                },
            }
        },
        Expr::If(c, t, f) => {
            match reduce_to_nf(c, fuel, stats) {
                Err(err) => Err(err),
                Ok(Expr::Bool(true)) => reduce_to_nf(t, fuel, stats),
                Ok(Expr::Bool(false)) => reduce_to_nf(f, fuel, stats),
                Ok(_) => Err(EvalError::InvalidCondition),
            }
        },
        _ => Ok(e.copy()),
    }
}

/// Adds one beta reduction to `stats`.
fn count_beta(stats: &mut Stats)
    ensures
        final(stats).beta_reductions == capped(old(stats).beta_reductions + 1),
{
    if stats.beta_reductions < usize::MAX {
        stats.beta_reductions = stats.beta_reductions + 1;
    }
}

/// Evaluates `e` to normal form, with the most fuel that a `u64` holds.
pub fn eval(e: &Expr) -> (r: Result<Expr, EvalError>)
    ensures
        eval_result(r) == eval_term(e.term(), u64::MAX as nat),
{
    let mut stats = Stats::default();
    reduce_to_nf(e, u64::MAX, &mut stats)
}

/// Integer operators on two operands that evaluate to the integers `a` and
/// `b`: `+`, `-` (the left operand minus the right one) and `*` give the
/// sum, difference and product; `<` gives true exactly when `a` is strictly
/// less than `b` and `>` exactly when it is strictly greater, so comparing
/// an operand with itself either way gives false; `=` gives true exactly
/// when they are equal.
pub proof fn law_int_operators(l: Term, r: Term, a: int, b: int, fuel: nat)
    requires
        eval_term(l, fuel) == Ok::<Term, EvalError>(Term::Int(a)),
        eval_term(r, fuel) == Ok::<Term, EvalError>(Term::Int(b)),
    ensures
        eval_term(Term::Bin(BinOp::Add, Box::new(l), Box::new(r)), fuel) == Ok::<Term, EvalError>(Term::Int(a + b)),
        eval_term(Term::Bin(BinOp::Sub, Box::new(l), Box::new(r)), fuel) == Ok::<Term, EvalError>(Term::Int(a - b)),
        eval_term(Term::Bin(BinOp::Mul, Box::new(l), Box::new(r)), fuel) == Ok::<Term, EvalError>(Term::Int(a * b)),
        eval_term(Term::Bin(BinOp::Lt, Box::new(l), Box::new(r)), fuel) == Ok::<Term, EvalError>(Term::Bool(a < b)),
        eval_term(Term::Bin(BinOp::Gt, Box::new(l), Box::new(r)), fuel) == Ok::<Term, EvalError>(Term::Bool(a > b)),
        eval_term(Term::Bin(BinOp::Eq, Box::new(l), Box::new(r)), fuel) == Ok::<Term, EvalError>(Term::Bool(a == b)),
        eval_term(Term::Bin(BinOp::Lt, Box::new(l), Box::new(l)), fuel) == Ok::<Term, EvalError>(Term::Bool(false)),
        eval_term(Term::Bin(BinOp::Gt, Box::new(l), Box::new(l)), fuel) == Ok::<Term, EvalError>(Term::Bool(false)),
{
}

/// Boolean operators on two operands that evaluate to the booleans `p` and
/// `q`: `|` gives `p || q`, `&` gives `p && q`, `=` gives `p == q`.
pub proof fn law_bool_operators(l: Term, r: Term, p: bool, q: bool, fuel: nat)
    requires
        eval_term(l, fuel) == Ok::<Term, EvalError>(Term::Bool(p)),
        eval_term(r, fuel) == Ok::<Term, EvalError>(Term::Bool(q)),
    ensures
        eval_term(Term::Bin(BinOp::Or, Box::new(l), Box::new(r)), fuel) == Ok::<Term, EvalError>(Term::Bool(p || q)),
        eval_term(Term::Bin(BinOp::And, Box::new(l), Box::new(r)), fuel) == Ok::<Term, EvalError>(Term::Bool(p && q)),
        eval_term(Term::Bin(BinOp::Eq, Box::new(l), Box::new(r)), fuel) == Ok::<Term, EvalError>(Term::Bool(p == q)),
{
}

/// String operators on two operands that evaluate to the strings `s` and
/// `t`: `.` gives `s` followed by `t`, `=` gives whether they are equal.
pub proof fn law_string_operators(l: Term, r: Term, s: Seq<char>, t: Seq<char>, fuel: nat)
    requires
        eval_term(l, fuel) == Ok::<Term, EvalError>(Term::Str(s)),
        eval_term(r, fuel) == Ok::<Term, EvalError>(Term::Str(t)),
    ensures
        eval_term(Term::Bin(BinOp::Concat, Box::new(l), Box::new(r)), fuel) == Ok::<Term, EvalError>(Term::Str(s + t)),
        eval_term(Term::Bin(BinOp::Eq, Box::new(l), Box::new(r)), fuel) == Ok::<Term, EvalError>(Term::Bool(s == t)),
{
}

/// Unary operators: `-` negates an integer and `!` a boolean.
pub proof fn law_unary_operators(l: Term, fuel: nat)
    ensures
        eval_term(l, fuel) matches Ok(Term::Int(a)) ==> eval_term(Term::Un(UnOp::Neg, Box::new(l)), fuel) == Ok::<
            Term,
            EvalError,
        >(Term::Int(-a)),
        eval_term(l, fuel) matches Ok(Term::Bool(p)) ==> eval_term(Term::Un(UnOp::Not, Box::new(l)), fuel) == Ok::<
            Term,
            EvalError,
        >(Term::Bool(!p)),
{
}

/// An `if` whose condition evaluates to true has the value of its first
/// branch, one whose condition evaluates to false that of its second.
pub proof fn law_if_branches(c: Term, a: Term, b: Term, fuel: nat)
    ensures
        eval_term(c, fuel) == Ok::<Term, EvalError>(Term::Bool(true)) ==> eval_term(
            Term::If(Box::new(c), Box::new(a), Box::new(b)),
            fuel,
        ) == eval_term(a, fuel),
        eval_term(c, fuel) == Ok::<Term, EvalError>(Term::Bool(false)) ==> eval_term(
            Term::If(Box::new(c), Box::new(a), Box::new(b)),
            fuel,
        ) == eval_term(b, fuel),
{
}

/// Taking `n` characters of a string and dropping `n` characters of it
/// give two parts that make up the string again, the first of length `n`
/// or the whole string when it is shorter.
pub proof fn law_take_drop(l: Term, r: Term, n: int, s: Seq<char>, fuel: nat)
    requires
        eval_term(l, fuel) == Ok::<Term, EvalError>(Term::Int(n)),
        eval_term(r, fuel) == Ok::<Term, EvalError>(Term::Str(s)),
        0 <= n <= usize::MAX,
    ensures
        eval_term(Term::Bin(BinOp::Take, Box::new(l), Box::new(r)), fuel) matches Ok(Term::Str(x)) && eval_term(
            Term::Bin(BinOp::Drop, Box::new(l), Box::new(r)),
            fuel,
        ) matches Ok(Term::Str(y)) && x + y == s && x.len() == (if n < s.len() {
            n
        } else {
            s.len() as int
        }),
{
    let k = min(n, s.len() as int);
    assert(s.take(k) + s.skip(k) =~= s);
}

/// Division and remainder of integers by a nonzero integer: the quotient
/// `q` and remainder `m` satisfy `a == q * b + m`, the remainder is smaller
/// than the divisor in size and has the sign of the dividend (or is zero);
/// by zero they fail.
pub proof fn law_div_rem(l: Term, r: Term, a: int, b: int, fuel: nat)
    requires
        eval_term(l, fuel) == Ok::<Term, EvalError>(Term::Int(a)),
        eval_term(r, fuel) == Ok::<Term, EvalError>(Term::Int(b)),
    ensures
        b == 0 ==> eval_term(Term::Bin(BinOp::Div, Box::new(l), Box::new(r)), fuel) == Err::<Term, EvalError>(
            EvalError::DivisionByZero,
        ),
        b == 0 ==> eval_term(Term::Bin(BinOp::Mod, Box::new(l), Box::new(r)), fuel) == Err::<Term, EvalError>(
            EvalError::DivisionByZero,
        ),
        b != 0 ==> (eval_term(Term::Bin(BinOp::Div, Box::new(l), Box::new(r)), fuel) matches Ok(Term::Int(q))
            && eval_term(Term::Bin(BinOp::Mod, Box::new(l), Box::new(r)), fuel) matches Ok(Term::Int(m)) && a == q
            * b + m && crate::bignum::abs(m) < crate::bignum::abs(b) && (m == 0 || (m < 0) == (a < 0))),
{
    if b != 0 {
        lemma_trunc(a, b);
    }
}

proof fn lemma_trunc(a: int, b: int)
    requires
        b != 0,
    ensures
        a == trunc_div(a, b) * b + trunc_rem(a, b),
        crate::bignum::abs(trunc_rem(a, b)) < crate::bignum::abs(b),
        trunc_rem(a, b) == 0 || (trunc_rem(a, b) < 0) == (a < 0),
{
    let aa = crate::bignum::abs(a);
    let ab = crate::bignum::abs(b);
    let q = aa / ab;
    let m = aa % ab;
    assert(aa == q * ab + m && 0 <= m < ab) by (nonlinear_arith)
        requires
            ab > 0,
            aa >= 0,
            q == aa / ab,
            m == aa % ab,
    ;
    assert(trunc_div(a, b) * b == b * trunc_div(a, b)) by (nonlinear_arith);
    if a >= 0 && b > 0 {
        assert(trunc_div(a, b) == q);
        assert(trunc_rem(a, b) == a - b * q);
        assert(b * q == q * ab) by (nonlinear_arith)
            requires
                b == ab,
        ;
    } else if a >= 0 && b < 0 {
        assert(trunc_div(a, b) == -q);
        assert(b * (-q) == q * ab) by (nonlinear_arith)
            requires
                b == -ab,
        ;
    } else if a < 0 && b > 0 {
        assert(trunc_div(a, b) == -q);
        assert(b * (-q) == -(q * ab)) by (nonlinear_arith)
            requires
                b == ab,
        ;
    } else {
        assert(trunc_div(a, b) == q);
        assert(b * q == -(q * ab)) by (nonlinear_arith)
            requires
                b == -ab,
        ;
    }
}

/// The variable `v` occurs free in `t`: not under a lambda that binds it.
pub open spec fn occurs_free(t: Term, v: usize) -> bool
    decreases t,
{
    match t {
        Term::Var(w) => w == v,
        Term::Un(_, e) => occurs_free(*e, v),
        Term::Bin(_, l, r) => occurs_free(*l, v) || occurs_free(*r, v),
        Term::If(c, a, b) => occurs_free(*c, v) || occurs_free(*a, v) || occurs_free(*b, v),
        Term::Lambda(w, e) => w != v && occurs_free(*e, v),
        _ => false,
    }
}

/// Substitution replaces the variable itself by the argument, and leaves a
/// term in which the variable does not occur free as it is (in particular
/// a lambda that binds the variable again).
pub proof fn law_subst(t: Term, v: usize, arg: Term)
    ensures
        subst(Term::Var(v), v, arg) == arg,
        !occurs_free(t, v) ==> subst(t, v, arg) == t,
    decreases t,
{
    match t {
        Term::Un(_, e) => {
            law_subst(*e, v, arg);
        },
        Term::Bin(_, l, r) => {
            law_subst(*l, v, arg);
            law_subst(*r, v, arg);
        },
        Term::If(c, a, b) => {
            law_subst(*c, v, arg);
            law_subst(*a, v, arg);
            law_subst(*b, v, arg);
        },
        Term::Lambda(w, e) => {
            law_subst(*e, v, arg);
        },
        _ => {},
    }
}

/// Applying a lambda (`$`) is call by name: the argument is put in place of
/// the bound variable unevaluated, which takes one beta reduction and one
/// unit of fuel.
pub proof fn law_beta(v: usize, body: Term, arg: Term, fuel: nat)
    ensures
        eval_run(Term::Bin(BinOp::App, Box::new(Term::Lambda(v, Box::new(body))), Box::new(arg)), fuel + 1) == (
            eval_run(subst(body, v, arg), fuel).0,
            1 + eval_run(subst(body, v, arg), fuel).1,
        ),
{
    let f = Term::Lambda(v, Box::new(body));
    assert(eval_run(f, fuel + 1) == (Ok::<Term, EvalError>(f), 0nat));
}

} // verus!
