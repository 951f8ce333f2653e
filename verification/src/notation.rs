//! Readable renderings of expressions: a compact notation, Haskell source and
//! lazily evaluated Scheme source.
use vstd::prelude::*;

use num_bigint::{BigInt, Sign};

use crate::bignum::BigNum;
use crate::expr::{BinOp, Expr, Term, UnOp};
use crate::printer::{decimal_text, digits_text, str_of, usize_text};

verus! {

/// std's `Debug` form of a string.
pub uninterp spec fn debug_quoted(s: Seq<char>) -> Seq<char>;

/// Printable ASCII other than `"` and `\\`: the characters that std's
/// `Debug` form of a string writes as they are.
pub open spec fn plain_text(s: Seq<char>) -> bool {
    forall|i: int| 0 <= i < s.len() ==> ' ' <= #[trigger] s[i] <= '~' && s[i] != '"' && s[i] != '\\'
}

/// std's `format!("{:?}")` on a string: the string in double quotes, escaped
/// the way Rust source writes it; a string of printable ASCII without `"` or
/// `\\` comes out unchanged between the quotes. Which other characters it
/// escapes, and how, is std's own table and is left unstated here.
#[verifier::external_body]
fn quoted(s: &String) -> (r: String)
    ensures
        r@ == debug_quoted(s@),
        plain_text(s@) ==> r@ == seq!['"'] + s@ + seq!['"'],
{
    format!("{:?}", s)
}

/// The lowercase hexadecimal digit of `d` (for `0 <= d < 16`).
pub open spec fn hex_digit(d: int) -> char {
    if d < 10 {
        ('0' as int + d) as char
    } else {
        ('a' as int + d - 10) as char
    }
}

/// The lowercase hexadecimal numeral of `n`, without leading zeros.
pub open spec fn hex_digits(n: nat) -> Seq<char>
    decreases n,
{
    if n < 16 {
        seq![hex_digit(n as int)]
    } else {
        hex_digits(n / 16).push(hex_digit((n % 16) as int))
    }
}

/// `n` as `{:#x}` writes it: a minus sign when negative, then `0x` and the
/// hexadecimal numeral of the magnitude.
pub open spec fn hex_text(n: int) -> Seq<char> {
    if n < 0 {
        "-0x"@ + hex_digits((-n) as nat)
    } else {
        "0x"@ + hex_digits(n as nat)
    }
}

/// num-bigint's `LowerHex` with the alternate flag, `format!("{:#x}")`: a
/// minus sign for a negative value, then `0x` and the lowercase hexadecimal
/// digits of the magnitude without leading zeros (`0x0` for zero).
#[verifier::external_body]
fn hex_of(n: &BigNum) -> (r: String)
    ensures
        r@ == hex_text(n@),
{
    let x = BigInt::from_slice(if n.negative { Sign::Minus } else { Sign::Plus }, &n.magnitude);
    format!("{:#x}", x)
}

/// No lazy or strict application occurs in the term: the renderings below
/// know only plain application.
pub open spec fn plain_apps(t: Term) -> bool
    decreases t,
{
    match t {
        Term::Un(_, e) => plain_apps(*e),
        Term::Bin(op, l, r) => op != BinOp::AppL && op != BinOp::AppV && plain_apps(*l) && plain_apps(
            *r,
        ),
        Term::If(c, a, b) => plain_apps(*c) && plain_apps(*a) && plain_apps(*b),
        Term::Lambda(_, e) => plain_apps(*e),
        _ => true,
    }
}

/// Whether no lazy or strict application occurs in the expression (see
/// `plain_apps`).
pub fn plain_apps_only(e: &Expr) -> (r: bool)
    ensures
        r == plain_apps(e.term()),
    decreases e,
{
    match e {
        Expr::Un(_, a) => plain_apps_only(a),
        Expr::Bin(op, l, r) => {
            if let BinOp::AppL = op {
                return false;
            }
            if let BinOp::AppV = op {
                return false;
            }
            plain_apps_only(l) && plain_apps_only(r)
        },
        Expr::If(c, a, b) => plain_apps_only(c) && plain_apps_only(a) && plain_apps_only(b),
        Expr::Lambda(_, a) => plain_apps_only(a),
        _ => true,
    }
}

/// `t` is `\x -> f (x x)` for the given `f`.
pub open spec fn fix_half(t: Term, f: usize) -> bool {
    match t {
        Term::Lambda(x, b) => match *b {
            Term::Bin(op, l, r) => op == BinOp::App && *l == Term::Var(f) && *r == Term::Bin(
                BinOp::App,
                Box::new(Term::Var(x)),
                Box::new(Term::Var(x)),
            ),
            _ => false,
        },
        _ => false,
    }
}

/// `t` is the fixed-point combinator `\f -> (\x -> f (x x)) (\x -> f (x x))`.
pub open spec fn is_fix_term(t: Term) -> bool {
    match t {
        Term::Lambda(f, b) => match *b {
            Term::Bin(op, l, r) => op == BinOp::App && fix_half(*l, f) && fix_half(*r, f),
            _ => false,
        },
        _ => false,
    }
}

/// `(l<op>r)`.
pub open spec fn infix(l: Seq<char>, op: Seq<char>, r: Seq<char>) -> Seq<char> {
    "("@ + l + op + r + ")"@
}

/// The compact notation of a unary operation on the notation `e`.
pub open spec fn pp_un(op: UnOp, e: Seq<char>) -> Seq<char> {
    match op {
        UnOp::Neg => "-"@ + e,
        UnOp::Not => "!"@ + e,
        UnOp::StrToInt => "str-to-int "@ + e,
        UnOp::IntToStr => "int-to-str "@ + e,
    }
}

/// The compact notation of a binary operation on the notations `l` and `r`.
pub open spec fn pp_bin(op: BinOp, l: Seq<char>, r: Seq<char>) -> Seq<char> {
    match op {
        BinOp::Add => infix(l, " + "@, r),
        BinOp::Sub => infix(l, " - "@, r),
        BinOp::Mul => infix(l, " * "@, r),
        BinOp::Div => infix(l, " / "@, r),
        BinOp::Mod => infix(l, " % "@, r),
        BinOp::Lt => infix(l, " < "@, r),
        BinOp::Gt => infix(l, " > "@, r),
        BinOp::Eq => infix(l, " == "@, r),
        BinOp::Or => infix(l, " || "@, r),
        BinOp::And => infix(l, " && "@, r),
        BinOp::Concat => infix(l, " ++ "@, r),
        BinOp::Take => "take ("@ + l + ") ("@ + r + ")"@,
        BinOp::Drop => "drop ("@ + l + ") ("@ + r + ")"@,
        _ => infix(l, " "@, r),
    }
}

/// `v` followed by the decimal numeral of `v`.
pub open spec fn var_text(v: usize) -> Seq<char> {
    "v"@ + digits_text(v as nat)
}

/// The compact notation of a term: `fix` for the fixed-point combinator,
/// `T`/`F`, numerals, quoted strings, `vN`, prefix operators, parenthesised
/// infix operators and `(\v1 v2 -> body)` for nested lambdas.
pub open spec fn pp_text(t: Term) -> Seq<char>
    decreases t, 0nat,
{
    if is_fix_term(t) {
        "fix"@
    } else {
        match t {
            Term::Bool(b) => if b {
                "T"@
            } else {
                "F"@
            },
            Term::Int(n) => decimal_text(n),
            Term::Str(s) => debug_quoted(s),
            Term::Var(v) => var_text(v),
            Term::Un(op, e) => pp_un(op, pp_text(*e)),
            Term::Bin(op, l, r) => pp_bin(op, pp_text(*l), pp_text(*r)),
            Term::If(c, a, b) => "(if "@ + pp_text(*c) + " then "@ + pp_text(*a) + " else "@
                + pp_text(*b) + ")"@,
            Term::Lambda(v, e) => pp_lambda_text(var_text(v), *e),
        }
    }
}

/// The compact notation of a lambda whose variables so far are `vars` and
/// whose rest is `e`.
pub open spec fn pp_lambda_text(vars: Seq<char>, e: Term) -> Seq<char>
    decreases e, 1nat,
{
    match e {
        Term::Lambda(v, b) => pp_lambda_text(vars + " "@ + var_text(v), *b),
        _ => "(\\"@ + vars + " -> "@ + pp_text(e) + ")"@,
    }
}

fn var_string(v: usize) -> (r: String)
    ensures
        r@ == var_text(v),
{
    let mut r = str_of("v");
    let d = usize_text(v);
    r.append(d.as_str());
    r
}

fn infix_string(l: &String, op: &str, r: &String) -> (s: String)
    ensures
        s@ == infix(l@, op@, r@),
{
    let mut s = str_of("(");
    s.append(l.as_str());
    s.append(op);
    s.append(r.as_str());
    s.append(")");
    s
}

fn half_is_fix(e: &Expr, f: usize) -> (r: bool)
    ensures
        r == fix_half(e.term(), f),
{
    proof {
        reveal_with_fuel(Expr::term, 4);
    }
    match e {
        Expr::Lambda(x, b) => match &**b {
            Expr::Bin(BinOp::App, l, r) => {
                let left = match &**l {
                    Expr::Var(v) => *v == f,
                    _ => false,
                };
                let right = match &**r {
                    Expr::Bin(BinOp::App, v1, v2) => {
                        let a = match &**v1 {
                            Expr::Var(w) => *w == *x,
                            _ => false,
                        };
                        let b = match &**v2 {
                            Expr::Var(w) => *w == *x,
                            _ => false,
                        };
                        a && b
                    },
                    _ => false,
                };
                left && right
            },
            _ => false,
        },
        _ => false,
    }
}

/// Whether the expression is the fixed-point combinator
/// `\f -> (\x -> f (x x)) (\x -> f (x x))`, whatever its variable numbers.
pub fn is_fix(e: &Expr) -> (r: bool)
    ensures
        r == is_fix_term(e.term()),
{
    proof {
        reveal_with_fuel(Expr::term, 3);
    }
    match e {
        Expr::Lambda(f, b) => match &**b {
            Expr::Bin(BinOp::App, l, r) => {
                let left = half_is_fix(l, *f);
                let right = half_is_fix(r, *f);
                left && right
            },
            _ => false,
        },
        _ => false,
    }
}

fn pp_bin_string(op: BinOp, l: &String, r: &String) -> (s: String)
    requires
        op != BinOp::AppL,
        op != BinOp::AppV,
    ensures
        s@ == pp_bin(op, l@, r@),
{
    match op {
        BinOp::Add => infix_string(l, " + ", r),
        BinOp::Sub => infix_string(l, " - ", r),
        BinOp::Mul => infix_string(l, " * ", r),
        BinOp::Div => infix_string(l, " / ", r),
        BinOp::Mod => infix_string(l, " % ", r),
        BinOp::Lt => infix_string(l, " < ", r),
        BinOp::Gt => infix_string(l, " > ", r),
        BinOp::Eq => infix_string(l, " == ", r),
        BinOp::Or => infix_string(l, " || ", r),
        BinOp::And => infix_string(l, " && ", r),
        BinOp::Concat => infix_string(l, " ++ ", r),
        BinOp::Take => {
            let mut s = str_of("take (");
            s.append(l.as_str());
            s.append(") (");
            s.append(r.as_str());
            s.append(")");
            s
        },
        BinOp::Drop => {
            let mut s = str_of("drop (");
            s.append(l.as_str());
            s.append(") (");
            s.append(r.as_str());
            s.append(")");
            s
        },
        _ => infix_string(l, " ", r),
    }
}

/// The compact notation of an expression (see `pp_text`).
pub fn pp(e: &Expr) -> (r: String)
    requires
        plain_apps(e.term()),
    ensures
        r@ == pp_text(e.term()),
    decreases e, 0nat,
{
    if is_fix(e) {
        return str_of("fix");
    }
    match e {
        Expr::Bool(b) => {
            if *b {
                str_of("T")
            } else {
                str_of("F")
            }
        },
        Expr::Int(n) => n.to_decimal(),
        Expr::String(s) => quoted(s),
        Expr::Var(v) => var_string(*v),
        Expr::Un(op, a) => {
            let x = pp(a);
            let mut s = match op {
                UnOp::Neg => str_of("-"),
                UnOp::Not => str_of("!"),
                UnOp::StrToInt => str_of("str-to-int "),
                UnOp::IntToStr => str_of("int-to-str "),
            };
            s.append(x.as_str());
            s
        },
        Expr::Bin(op, l, r) => {
            let ls = pp(l);
            let rs = pp(r);
            pp_bin_string(*op, &ls, &rs)
        },
        Expr::If(c, a, b) => {
            let cs = pp(c);
            let a_s = pp(a);
            let bs = pp(b);
            let mut s = str_of("(if ");
            s.append(cs.as_str());
            s.append(" then ");
            s.append(a_s.as_str());
            s.append(" else ");
            s.append(bs.as_str());
            s.append(")");
            s
        },
        Expr::Lambda(v, b) => {
            let vars = var_string(*v);
            pp_lambda(vars, b)
        },
    }
}

fn pp_lambda(vars: String, e: &Expr) -> (r: String)
    requires
        plain_apps(e.term()),
    ensures
        r@ == pp_lambda_text(vars@, e.term()),
    decreases e, 1nat,
{
    match e {
        Expr::Lambda(v, b) => {
            let mut more = vars;
            more.append(" ");
            let w = var_string(*v);
            more.append(w.as_str());
            pp_lambda(more, b)
        },
        _ => {
            let body = pp(e);
            let mut s = str_of("(\\");
            s.append(vars.as_str());
            s.append(" -> ");
            s.append(body.as_str());
            s.append(")");
            s
        },
    }
}

/// The term with every fixed-point combinator in it replaced by the
/// variable `usize::MAX`.
pub open spec fn simplified(t: Term) -> Term
    decreases t,
{
    if is_fix_term(t) {
        Term::Var(usize::MAX)
    } else {
        match t {
            Term::Un(op, e) => Term::Un(op, Box::new(simplified(*e))),
            Term::Bin(op, l, r) => Term::Bin(op, Box::new(simplified(*l)), Box::new(simplified(*r))),
            Term::If(c, a, b) => Term::If(
                Box::new(simplified(*c)),
                Box::new(simplified(*a)),
                Box::new(simplified(*b)),
            ),
            Term::Lambda(v, e) => Term::Lambda(v, Box::new(simplified(*e))),
            _ => t,
        }
    }
}

/// The expression with every fixed-point combinator in it replaced by the
/// variable `usize::MAX`, which the Haskell rendering writes as `fix`.
pub fn simplify_comb(e: &Expr) -> (r: Expr)
    ensures
        r.term() == simplified(e.term()),
    decreases e,
{
    if is_fix(e) {
        return Expr::Var(usize::MAX);
    }
    match e {
        Expr::Un(op, a) => Expr::Un(*op, Box::new(simplify_comb(a))),
        Expr::Bin(op, l, r) => Expr::Bin(*op, Box::new(simplify_comb(l)), Box::new(simplify_comb(r))),
        Expr::If(c, a, b) => Expr::If(
            Box::new(simplify_comb(c)),
            Box::new(simplify_comb(a)),
            Box::new(simplify_comb(b)),
        ),
        Expr::Lambda(v, a) => Expr::Lambda(*v, Box::new(simplify_comb(a))),
        _ => e.copy(),
    }
}

/// Haskell for a unary operation on the Haskell `e`.
pub open spec fn hs_un(op: UnOp, e: Seq<char>) -> Seq<char> {
    match op {
        UnOp::Neg => "(- "@ + e + ")"@,
        UnOp::Not => "(not "@ + e + ")"@,
        UnOp::StrToInt => "(strToInt "@ + e + ")"@,
        UnOp::IntToStr => "(intToStr "@ + e + ")"@,
    }
}

/// Haskell for a binary operation on the Haskell `l` and `r`.
pub open spec fn hs_bin(op: BinOp, l: Seq<char>, r: Seq<char>) -> Seq<char> {
    match op {
        BinOp::Add => infix(l, " + "@, r),
        BinOp::Sub => infix(l, " - "@, r),
        BinOp::Mul => infix(l, " * "@, r),
        BinOp::Div => infix(l, " `div` "@, r),
        BinOp::Mod => infix(l, " `mod`"@, r),
        BinOp::Lt => infix(l, " < "@, r),
        BinOp::Gt => infix(l, " > "@, r),
        BinOp::Eq => infix(l, " == "@, r),
        BinOp::Or => infix(l, " || "@, r),
        BinOp::And => infix(l, " && "@, r),
        BinOp::Concat => infix(l, " ++ "@, r),
        BinOp::Take => "(take "@ + l + " "@ + r + ")"@,
        BinOp::Drop => "(drop "@ + l + " "@ + r + ")"@,
        _ => infix(l, " "@, r),
    }
}

/// Haskell for a term: `True`/`False`, integers in hexadecimal, quoted
/// strings, `fix` for the variable `usize::MAX`, a negated equality as `/=`,
/// an applied lambda as `let`, chains of `||` and of `&&` without inner
/// parentheses, and nested lambdas as one `(\v1 v2 -> body)`.
pub open spec fn haskell_text(t: Term) -> Seq<char>
    decreases t, 0nat,
{
    match t {
        Term::Bool(b) => if b {
            "True"@
        } else {
            "False"@
        },
        Term::Int(n) => hex_text(n),
        Term::Str(s) => debug_quoted(s),
        Term::Var(v) => if v == usize::MAX {
            "fix"@
        } else {
            var_text(v)
        },
        Term::Un(op, e) => match *e {
            Term::Bin(BinOp::Eq, l, r) => infix(haskell_text(*l), " /= "@, haskell_text(*r)),
            _ => hs_un(op, haskell_text(*e)),
        },
        Term::Bin(op, l, r) => match *l {
            Term::Lambda(v, b) if op == BinOp::App => "(let "@ + var_text(v) + " = "@
                + haskell_text(*r) + " in "@ + haskell_text(*b) + ")"@,
            _ => if op == BinOp::Or {
                infix(hs_chain(BinOp::Or, " || "@, *l), " || "@, haskell_text(*r))
            } else if op == BinOp::And {
                infix(hs_chain(BinOp::And, " && "@, *l), " && "@, haskell_text(*r))
            } else {
                hs_bin(op, haskell_text(*l), haskell_text(*r))
            },
        },
        Term::If(c, a, b) => "(if "@ + haskell_text(*c) + " then "@ + haskell_text(*a) + " else "@
            + haskell_text(*b) + ")"@,
        Term::Lambda(v, e) => hs_lambda_text(var_text(v), *e),
    }
}

/// Haskell for the operands of a chain of `op` ending in `t`, joined by
/// `sep`.
pub open spec fn hs_chain(op: BinOp, sep: Seq<char>, t: Term) -> Seq<char>
    decreases t, 1nat,
{
    match t {
        Term::Bin(op2, l, r) => if op2 == op {
            hs_chain(op, sep, *l) + sep + haskell_text(*r)
        } else {
            haskell_text(t)
        },
        _ => haskell_text(t),
    }
}

/// Haskell for a lambda whose variables so far are `vars` and whose rest is
/// `e`.
pub open spec fn hs_lambda_text(vars: Seq<char>, e: Term) -> Seq<char>
    decreases e, 1nat,
{
    match e {
        Term::Lambda(v, b) => hs_lambda_text(vars + " "@ + var_text(v), *b),
        _ => "(\\"@ + vars + " -> "@ + haskell_text(e) + ")"@,
    }
}

fn hs_bin_string(op: BinOp, l: &String, r: &String) -> (s: String)
    requires
        op != BinOp::AppL,
        op != BinOp::AppV,
    ensures
        s@ == hs_bin(op, l@, r@),
{
    match op {
        BinOp::Add => infix_string(l, " + ", r),
        BinOp::Sub => infix_string(l, " - ", r),
        BinOp::Mul => infix_string(l, " * ", r),
        BinOp::Div => infix_string(l, " `div` ", r),
        BinOp::Mod => infix_string(l, " `mod`", r),
        BinOp::Lt => infix_string(l, " < ", r),
        BinOp::Gt => infix_string(l, " > ", r),
        BinOp::Eq => infix_string(l, " == ", r),
        BinOp::Or => infix_string(l, " || ", r),
        BinOp::And => infix_string(l, " && ", r),
        BinOp::Concat => infix_string(l, " ++ ", r),
        BinOp::Take => {
            let mut s = str_of("(take ");
            s.append(l.as_str());
            s.append(" ");
            s.append(r.as_str());
            s.append(")");
            s
        },
        BinOp::Drop => {
            let mut s = str_of("(drop ");
            s.append(l.as_str());
            s.append(" ");
            s.append(r.as_str());
            s.append(")");
            s
        },
        _ => infix_string(l, " ", r),
    }
}

/// Haskell source for an expression (see `haskell_text`).
pub fn to_haskell(e: &Expr) -> (r: String)
    requires
        plain_apps(e.term()),
    ensures
        r@ == haskell_text(e.term()),
    decreases e, 0nat,
{
    proof {
        reveal_with_fuel(Expr::term, 2);
        reveal_with_fuel(plain_apps, 3);
    }
    match e {
        Expr::Bool(b) => {
            if *b {
                str_of("True")
            } else {
                str_of("False")
            }
        },
        Expr::Int(n) => hex_of(n),
        Expr::String(s) => quoted(s),
        Expr::Var(v) => {
            if *v == usize::MAX {
                str_of("fix")
            } else {
                var_string(*v)
            }
        },
        Expr::Un(op, a) => {
            if let Expr::Bin(BinOp::Eq, l, r) = &**a {
                let ls = to_haskell(l);
                let rs = to_haskell(r);
                return infix_string(&ls, " /= ", &rs);
            }
            let x = to_haskell(a);
            let mut s = match op {
                UnOp::Neg => str_of("(- "),
                UnOp::Not => str_of("(not "),
                UnOp::StrToInt => str_of("(strToInt "),
                UnOp::IntToStr => str_of("(intToStr "),
            };
            s.append(x.as_str());
            s.append(")");
            s
        },
        Expr::Bin(op, l, r) => {
            let rs = to_haskell(r);
            if let BinOp::App = op {
                if let Expr::Lambda(v, b) = &**l {
                    let bs = to_haskell(b);
                    let mut s = str_of("(let ");
                    let vs = var_string(*v);
                    s.append(vs.as_str());
                    s.append(" = ");
                    s.append(rs.as_str());
                    s.append(" in ");
                    s.append(bs.as_str());
                    s.append(")");
                    return s;
                }
            }
            if let BinOp::Or = op {
                let ls = hs_chain_string(BinOp::Or, " || ", l);
                return infix_string(&ls, " || ", &rs);
            }
            if let BinOp::And = op {
                let ls = hs_chain_string(BinOp::And, " && ", l);
                return infix_string(&ls, " && ", &rs);
            }
            let ls = to_haskell(l);
            hs_bin_string(*op, &ls, &rs)
        },
        Expr::If(c, a, b) => {
            let cs = to_haskell(c);
            let a_s = to_haskell(a);
            let bs = to_haskell(b);
            let mut s = str_of("(if ");
            s.append(cs.as_str());
            s.append(" then ");
            s.append(a_s.as_str());
            s.append(" else ");
            s.append(bs.as_str());
            s.append(")");
            s
        },
        Expr::Lambda(v, b) => {
            let vars = var_string(*v);
            hs_lambda(vars, b)
        },
    }
}

fn hs_chain_string(op: BinOp, sep: &str, e: &Expr) -> (r: String)
    requires
        plain_apps(e.term()),
    ensures
        r@ == hs_chain(op, sep@, e.term()),
    decreases e, 1nat,
{
    match e {
        Expr::Bin(op2, l, r) => {
            if *op2 == op {
                let mut s = hs_chain_string(op, sep, l);
                let rs = to_haskell(r);
                s.append(sep);
                s.append(rs.as_str());
                s
            } else {
                to_haskell(e)
            }
        },
        _ => to_haskell(e),
    }
}

fn hs_lambda(vars: String, e: &Expr) -> (r: String)
    requires
        plain_apps(e.term()),
    ensures
        r@ == hs_lambda_text(vars@, e.term()),
    decreases e, 1nat,
{
    match e {
        Expr::Lambda(v, b) => {
            let mut more = vars;
            more.append(" ");
            let w = var_string(*v);
            more.append(w.as_str());
            hs_lambda(more, b)
        },
        _ => {
            let body = to_haskell(e);
            let mut s = str_of("(\\");
            s.append(vars.as_str());
            s.append(" -> ");
            s.append(body.as_str());
            s.append(")");
            s
        },
    }
}

/// `(lazy s)`.
pub open spec fn lazy(s: Seq<char>) -> Seq<char> {
    "(lazy "@ + s + ")"@
}

/// `(f (force l) (force r))`.
pub open spec fn forced_call(f: Seq<char>, l: Seq<char>, r: Seq<char>) -> Seq<char> {
    "("@ + f + " (force "@ + l + ") (force "@ + r + "))"@
}

/// Lazy Scheme for a unary operation on the promise `e`.
pub open spec fn lazy_un(op: UnOp, e: Seq<char>) -> Seq<char> {
    match op {
        UnOp::Neg => "(- (force "@ + e + "))"@,
        UnOp::Not => "(not (force "@ + e + "))"@,
        UnOp::StrToInt => "(str-to-int (force "@ + e + "))"@,
        UnOp::IntToStr => "(int-to-str (force "@ + e + "))"@,
    }
}

/// Lazy Scheme for a binary operation on the promises `l` and `r`.
pub open spec fn lazy_bin(op: BinOp, l: Seq<char>, r: Seq<char>) -> Seq<char> {
    match op {
        BinOp::Add => forced_call("+"@, l, r),
        BinOp::Sub => forced_call("-"@, l, r),
        BinOp::Mul => forced_call("*"@, l, r),
        BinOp::Div => forced_call("div"@, l, r),
        BinOp::Mod => forced_call("mod"@, l, r),
        BinOp::Lt => forced_call("<"@, l, r),
        BinOp::Gt => forced_call(">"@, l, r),
        BinOp::Eq => forced_call("="@, l, r),
        BinOp::Or => forced_call("or"@, l, r),
        BinOp::And => forced_call("and"@, l, r),
        BinOp::Concat => forced_call("string-append"@, l, r),
        BinOp::Take => forced_call("string-take"@, r, l),
        BinOp::Drop => forced_call("string-drop"@, r, l),
        BinOp::App => "((force "@ + l + ") "@ + r + ")"@,
        BinOp::AppL => "Not support op AppL"@,
        BinOp::AppV => "Not support op AppV"@,
    }
}

/// Scheme for a term in which every subterm is a promise made with `lazy`
/// and taken apart with `force`.
pub open spec fn lazy_scheme_text(t: Term) -> Seq<char>
    decreases t,
{
    match t {
        Term::Bool(b) => lazy(
            if b {
                "#t"@
            } else {
                "#f"@
            },
        ),
        Term::Int(n) => lazy(decimal_text(n)),
        Term::Str(s) => lazy(debug_quoted(s)),
        Term::Var(v) => lazy(var_text(v)),
        Term::Un(op, e) => lazy(lazy_un(op, lazy_scheme_text(*e))),
        Term::Bin(op, l, r) => lazy(lazy_bin(op, lazy_scheme_text(*l), lazy_scheme_text(*r))),
        Term::If(c, a, b) => lazy(
            "(if (force "@ + lazy_scheme_text(*c) + ") (lazy "@ + lazy_scheme_text(*a) + ") (lazy "@
                + lazy_scheme_text(*b) + "))"@,
        ),
        Term::Lambda(v, e) => lazy("(lambda ("@ + var_text(v) + ") (lazy "@ + lazy_scheme_text(*e) + "))"@),
    }
}

fn wrap(head: &str, s: &String, tail: &str) -> (r: String)
    ensures
        r@ == head@ + s@ + tail@,
{
    let mut r = str_of(head);
    r.append(s.as_str());
    r.append(tail);
    r
}

fn forced_call_string(f: &str, l: &String, r: &String) -> (s: String)
    ensures
        s@ == forced_call(f@, l@, r@),
{
    let mut s = str_of("(");
    s.append(f);
    s.append(" (force ");
    s.append(l.as_str());
    s.append(") (force ");
    s.append(r.as_str());
    s.append("))");
    s
}

/// Lazily evaluated Scheme for an expression (see `lazy_scheme_text`).
pub fn to_scheme(e: &Expr) -> (r: String)
    ensures
        r@ == lazy_scheme_text(e.term()),
    decreases e,
{
    match e {
        Expr::Bool(b) => {
            let x = if *b {
                str_of("#t")
            } else {
                str_of("#f")
            };
            wrap("(lazy ", &x, ")")
        },
        Expr::Int(n) => {
            let d = n.to_decimal();
            wrap("(lazy ", &d, ")")
        },
        Expr::String(s) => {
            let q = quoted(s);
            wrap("(lazy ", &q, ")")
        },
        Expr::Var(v) => {
            let x = var_string(*v);
            wrap("(lazy ", &x, ")")
        },
        Expr::Un(op, a) => {
            let x = to_scheme(a);
            let inner = match op {
                UnOp::Neg => wrap("(- (force ", &x, "))"),
                UnOp::Not => wrap("(not (force ", &x, "))"),
                UnOp::StrToInt => wrap("(str-to-int (force ", &x, "))"),
                UnOp::IntToStr => wrap("(int-to-str (force ", &x, "))"),
            };
            wrap("(lazy ", &inner, ")")
        },
        Expr::Bin(op, l, r) => {
            let ls = to_scheme(l);
            let rs = to_scheme(r);
            let inner = match op {
                BinOp::Add => forced_call_string("+", &ls, &rs),
                BinOp::Sub => forced_call_string("-", &ls, &rs),
                BinOp::Mul => forced_call_string("*", &ls, &rs),
                BinOp::Div => forced_call_string("div", &ls, &rs),
                BinOp::Mod => forced_call_string("mod", &ls, &rs),
                BinOp::Lt => forced_call_string("<", &ls, &rs),
                BinOp::Gt => forced_call_string(">", &ls, &rs),
                BinOp::Eq => forced_call_string("=", &ls, &rs),
                BinOp::Or => forced_call_string("or", &ls, &rs),
                BinOp::And => forced_call_string("and", &ls, &rs),
                BinOp::Concat => forced_call_string("string-append", &ls, &rs),
                BinOp::Take => forced_call_string("string-take", &rs, &ls),
                BinOp::Drop => forced_call_string("string-drop", &rs, &ls),
                BinOp::App => {
                    let mut s = str_of("((force ");
                    s.append(ls.as_str());
                    s.append(") ");
                    s.append(rs.as_str());
                    s.append(")");
                    s
                },
                BinOp::AppL => str_of("Not support op AppL"),
                BinOp::AppV => str_of("Not support op AppV"),
            };
            wrap("(lazy ", &inner, ")")
        },
        Expr::If(c, a, b) => {
            let cs = to_scheme(c);
            let a_s = to_scheme(a);
            let bs = to_scheme(b);
            let mut s = str_of("(if (force ");
            s.append(cs.as_str());
            s.append(") (lazy ");
            s.append(a_s.as_str());
            s.append(") (lazy ");
            s.append(bs.as_str());
            s.append("))");
            wrap("(lazy ", &s, ")")
        },
        Expr::Lambda(v, a) => {
            let x = to_scheme(a);
            let mut s = str_of("(lambda (");
            let vs = var_string(*v);
            s.append(vs.as_str());
            s.append(") (lazy ");
            s.append(x.as_str());
            s.append("))");
            wrap("(lazy ", &s, ")")
        },
    }
}

} // verus!
