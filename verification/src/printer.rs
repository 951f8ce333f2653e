use vstd::prelude::*;

use crate::expr::{BinOp, Expr, Term, UnOp};
use crate::text::{push_char, reversed};

verus! {

/// The decimal digit of `d` (for `0 <= d < 10`).
pub open spec fn digit_char(d: int) -> char {
    ('0' as u32 + d) as char
}

/// The decimal numeral of `n`.
pub open spec fn digits_text(n: nat) -> Seq<char>
    decreases n,
{
    if n < 10 {
        seq![digit_char(n as int)]
    } else {
        digits_text(n / 10).push(digit_char((n % 10) as int))
    }
}

/// The decimal numeral of `n`, with a minus sign when it is negative.
pub open spec fn decimal_text(n: int) -> Seq<char> {
    if n < 0 {
        seq!['-'] + digits_text((-n) as nat)
    } else {
        digits_text(n as nat)
    }
}

/// `s` with each line feed written as a backslash and `n`.
pub open spec fn escaped(s: Seq<char>) -> Seq<char>
    decreases s.len(),
{
    if s.len() == 0 {
        Seq::empty()
    } else if s.last() == '\n' {
        escaped(s.drop_last()) + seq!['\\', 'n']
    } else {
        escaped(s.drop_last()).push(s.last())
    }
}

/// The opening of the Scheme form of a binary operator, up to its first
/// operand.
pub open spec fn bin_open(op: BinOp) -> Seq<char> {
    match op {
        BinOp::Add => "(+ "@,
        BinOp::Sub => "(- "@,
        BinOp::Mul => "(* "@,
        BinOp::Div => "(/ "@,
        BinOp::Mod => "(% "@,
        BinOp::Lt => "(< "@,
        BinOp::Gt => "(> "@,
        BinOp::Eq => "(equal? "@,
        BinOp::Or => "(and "@,
        BinOp::And => "(or "@,
        BinOp::Concat => "(string-append "@,
        BinOp::Take => "(take "@,
        BinOp::Drop => "(drop "@,
        BinOp::App => "("@,
        BinOp::AppL => "(delay "@,
        BinOp::AppV => "(AppV "@,
    }
}

/// A term written in Scheme.
pub open spec fn scheme_text(t: Term) -> Seq<char>
    decreases t,
{
    match t {
        Term::Bool(b) => if b {
            "#t"@
        } else {
            "#f"@
        },
        Term::Int(n) => decimal_text(n),
        Term::Str(s) => "\""@ + escaped(s) + "\""@,
        Term::Var(v) => "v"@ + digits_text(v as nat),
        Term::Un(op, e) => match op {
            UnOp::Neg => "-"@ + scheme_text(*e),
            UnOp::Not => "!"@ + scheme_text(*e),
            UnOp::StrToInt => "(stoi "@ + scheme_text(*e) + ")"@,
            UnOp::IntToStr => "(itos "@ + scheme_text(*e) + ")"@,
        },
        Term::Bin(op, l, r) => bin_open(op) + scheme_text(*l) + " "@ + scheme_text(*r) + ")"@,
        Term::If(c, th, el) => "(if "@ + scheme_text(*c) + " "@ + scheme_text(*th) + " "@
            + scheme_text(*el) + ")"@,
        Term::Lambda(v, e) => "(lambda (v"@ + digits_text(v as nat) + ") "@ + scheme_text(*e)
            + ")"@,
    }
}

pub(crate) fn str_of(s: &str) -> (r: String)
    ensures
        r@ == s@,
{
    String::from_str(s)
}

/// The decimal numeral of `n`.
pub(crate) fn usize_text(n: usize) -> (r: String)
    ensures
        r@ == digits_text(n as nat),
{
    let mut rev: Vec<char> = Vec::new();
    let mut m = n;
    let mut more = true;
    while more
        invariant
            more ==> digits_text(n as nat) == digits_text(m as nat) + reversed(rev@),
            !more ==> digits_text(n as nat) == reversed(rev@),
        decreases m, if more { 1int } else { 0int },
    {
        let d = m % 10;
        let c = (('0' as u8) + (d as u8)) as char;
        assert(c == digit_char(d as int));
        let ghost old_rev = rev@;
        rev.push(c);
        proof {
            assert(reversed(rev@) =~= seq![c] + reversed(old_rev));
        }
        if m < 10 {
            assert(digits_text(m as nat) == seq![c]);
            assert(digits_text(m as nat) + reversed(old_rev) =~= reversed(rev@));
            more = false;
        } else {
            assert(digits_text(m as nat) == digits_text((m / 10) as nat).push(c));
            assert(digits_text(m as nat) + reversed(old_rev) =~= digits_text((m / 10) as nat)
                + reversed(rev@));
            m = m / 10;
        }
    }
    let mut r = String::new();
    let mut k = rev.len();
    while k > 0
        invariant
            k <= rev.len(),
            r@ =~= reversed(rev@).take(rev.len() - k),
        decreases k,
    {
        k = k - 1;
        push_char(&mut r, rev[k]);
        assert(r@ =~= reversed(rev@).take(rev.len() - k));
    }
    assert(reversed(rev@).take(rev.len() as int) =~= reversed(rev@));
    r
}


/// `s` with each line feed written as a backslash and `n`.
fn escape_newlines(s: &String) -> (r: String)
    ensures
        r@ == escaped(s@),
{
    let cs = crate::text::chars_of(s.as_str());
    let mut r = String::new();
    let mut i: usize = 0;
    while i < cs.len()
        invariant
            cs@ == s@,
            i <= cs.len(),
            r@ == escaped(s@.take(i as int)),
        decreases cs.len() - i,
    {
        let c = cs[i];
        assert(s@.take(i + 1).drop_last() =~= s@.take(i as int));
        if c == '\n' {
            push_char(&mut r, '\\');
            push_char(&mut r, 'n');
        } else {
            push_char(&mut r, c);
        }
        i = i + 1;
        assert(r@ =~= escaped(s@.take(i as int)));
    }
    assert(s@.take(s@.len() as int) =~= s@);
    r
}

fn bin_open_str(op: BinOp) -> (r: &'static str)
    ensures
        r@ == bin_open(op),
{
    match op {
        BinOp::Add => "(+ ",
        BinOp::Sub => "(- ",
        BinOp::Mul => "(* ",
        BinOp::Div => "(/ ",
        BinOp::Mod => "(% ",
        BinOp::Lt => "(< ",
        BinOp::Gt => "(> ",
        BinOp::Eq => "(equal? ",
        BinOp::Or => "(and ",
        BinOp::And => "(or ",
        BinOp::Concat => "(string-append ",
        BinOp::Take => "(take ",
        BinOp::Drop => "(drop ",
        BinOp::App => "(",
        BinOp::AppL => "(delay ",
        BinOp::AppV => "(AppV ",
    }
}

/// An expression written in Scheme (see `scheme_text`).
pub fn pretty_print_scheme(expr: &Expr) -> (r: String)
    ensures
        r@ == scheme_text(expr.term()),
    decreases expr,
{
    match expr {
        Expr::Bool(b) => {
            if *b {
                str_of("#t")
            } else {
                str_of("#f")
            }
        },
        Expr::Int(i) => i.to_decimal(),
        Expr::String(s) => {
            let mut r = str_of("\"");
            let e = escape_newlines(s);
            r.append(e.as_str());
            r.append("\"");
            r
        },
        Expr::Var(idx) => {
            let mut r = str_of("v");
            let d = usize_text(*idx);
            r.append(d.as_str());
            r
        },
        Expr::Un(op, e) => {
            let operand = pretty_print_scheme(e);
            match op {
                UnOp::Neg => {
                    let mut r = str_of("-");
                    r.append(operand.as_str());
                    r
                },
                UnOp::Not => {
                    let mut r = str_of("!");
                    r.append(operand.as_str());
                    r
                },
                UnOp::StrToInt => {
                    let mut r = str_of("(stoi ");
                    r.append(operand.as_str());
                    r.append(")");
                    r
                },
                UnOp::IntToStr => {
                    let mut r = str_of("(itos ");
                    r.append(operand.as_str());
                    r.append(")");
                    r
                },
            }
        },
        Expr::Bin(op, lhs, rhs) => {
            let l = pretty_print_scheme(lhs);
            let rt = pretty_print_scheme(rhs);
            let mut r = str_of(bin_open_str(*op));
            r.append(l.as_str());
            r.append(" ");
            r.append(rt.as_str());
            r.append(")");
            r
        },
        Expr::If(cond, th, el) => {
            let c = pretty_print_scheme(cond);
            let t = pretty_print_scheme(th);
            let e = pretty_print_scheme(el);
            let mut r = str_of("(if ");
            r.append(c.as_str());
            r.append(" ");
            r.append(t.as_str());
            r.append(" ");
            r.append(e.as_str());
            r.append(")");
            r
        },
        Expr::Lambda(idx, body) => {
            let b = pretty_print_scheme(body);
            let mut r = str_of("(lambda (v");
            let d = usize_text(*idx);
            r.append(d.as_str());
            r.append(") ");
            r.append(b.as_str());
            r.append(")");
            r
        },
    }
}

} // verus!
