//! The Scheme-to-ICFP compiler front: a program read from its tokens, and
//! the whole rewrite from a program to the one expression that computes its
//! `res`.
use vstd::prelude::*;

use crate::scheme::{
    all_readable, define_reduced, define_readable, define_var, lemma_views, recursive_define, reduced,
    res_lambda, is_var_named, views, Expr, Program, Sx,
};
use crate::text::str_eq;

verus! {

/// A token of a Scheme program.
#[derive(Debug)]
pub enum SchemeToken {
    OpenParen,
    CloseParen,
    Str(String),
    Num(i32),
    Var(String),
}

/// The expression that the elements `es` of a parenthesized list make:
/// `(lambda (x) body)` is a lambda of `x`, another list headed by `lambda`
/// is malformed (`None`), and any other list is an application.
pub open spec fn list_form(es: Seq<Sx>) -> Option<Sx> {
    if es.len() > 0 && is_var_named(es[0], "lambda"@) {
        if es.len() == 3 && (es[1] matches Sx::Proc(ps) && ps.len() == 1 && ps[0] is Var) {
            Some(Sx::Lambda(es[1]->Proc_0[0]->Var_0, Box::new(es[2])))
        } else {
            None
        }
    } else if es.len() == 0 {
        None
    } else {
        Some(Sx::Proc(es))
    }
}

/// The expression that starts at token `i`, and the index after it: a
/// string, number or variable token, or a parenthesized nonempty list (see
/// `list_form`). `None` where the tokens are malformed or the `fuel` runs
/// out.
pub open spec fn parse_expr(toks: Seq<SchemeToken>, i: int, fuel: nat) -> Option<(Sx, int)>
    decreases fuel, 1int,
{
    if fuel == 0 || i < 0 || i >= toks.len() {
        None
    } else {
        match toks[i] {
            SchemeToken::OpenParen => match parse_list(toks, i + 1, (fuel - 1) as nat) {
                Some((es, j)) => match list_form(es) {
                    Some(e) => Some((e, j)),
                    None => None,
                },
                None => None,
            },
            SchemeToken::CloseParen => None,
            SchemeToken::Str(s) => Some((Sx::Str(s@), i + 1)),
            SchemeToken::Num(n) => Some((Sx::Num(n), i + 1)),
            SchemeToken::Var(v) => Some((Sx::Var(v@), i + 1)),
        }
    }
}

/// The expressions from token `i` up to the closing parenthesis that ends
/// the list, and the index after that parenthesis.
pub open spec fn parse_list(toks: Seq<SchemeToken>, i: int, fuel: nat) -> Option<(Seq<Sx>, int)>
    decreases fuel, 0int,
{
    if fuel == 0 || i < 0 || i >= toks.len() {
        None
    } else if toks[i] is CloseParen {
        Some((Seq::empty(), i + 1))
    } else {
        match parse_expr(toks, i, (fuel - 1) as nat) {
            Some((e, j)) => match parse_list(toks, j, (fuel - 1) as nat) {
                Some((es, k)) => Some((seq![e] + es, k)),
                None => None,
            },
            None => None,
        }
    }
}

/// The expressions from token `i` to the end of the tokens.
pub open spec fn parse_top(toks: Seq<SchemeToken>, i: int, fuel: nat) -> Option<Seq<Sx>>
    decreases fuel,
{
    if i >= toks.len() {
        Some(Seq::empty())
    } else if fuel == 0 {
        None
    } else {
        match parse_expr(toks, i, (fuel - 1) as nat) {
            Some((e, j)) => match parse_top(toks, j, (fuel - 1) as nat) {
                Some(es) => Some(seq![e] + es),
                None => None,
            },
            None => None,
        }
    }
}

/// The top-level expressions that the tokens write, with fuel for every
/// nesting (two calls per token and one more).
pub open spec fn parsed(toks: Seq<SchemeToken>) -> Option<Seq<Sx>> {
    parse_top(toks, 0, 2 * toks.len() + 2)
}

/// The expression of a parenthesized list's elements (see `list_form`).
fn make_list(es: Vec<Expr>) -> (r: Option<Expr>)
    ensures
        match list_form(views(es@)) {
            Some(e) => r matches Some(x) && x@ == e,
            None => r is None,
        },
{
    proof {
        lemma_views(es@);
    }
    if es.len() == 0 {
        return None;
    }
    let lam = match &es[0] {
        Expr::Var(v) => str_eq(v.as_str(), "lambda"),
        _ => false,
    };
    if !lam {
        proof {
            lemma_views(es@);
            assert(crate::scheme::sx_of(Expr::Proc(es)) == Sx::Proc(views(es@)));
        }
        return Some(Expr::Proc(es));
    }
    if es.len() != 3 {
        return None;
    }
    match &es[1] {
        Expr::Proc(ps) => {
            proof {
                lemma_views(ps@);
                assert(views(es@)[1] == Sx::Proc(views(ps@)));
            }
            if ps.len() != 1 {
                return None;
            }
            match &ps[0] {
                Expr::Var(x) => {
                    let body = es[2].copy();
                    Some(Expr::Lambda(x.clone(), Box::new(body)))
                },
                _ => None,
            }
        },
        _ => None,
    }
}

fn parse_expr_at(toks: &[SchemeToken], i: usize, fuel: usize) -> (r: Option<(Expr, usize)>)
    ensures
        match parse_expr(toks@, i as int, fuel as nat) {
            Some((e, j)) => r matches Some((x, k)) && x@ == e && k == j,
            None => r is None,
        },
    decreases fuel, 1int,
{
    if fuel == 0 || i >= toks.len() {
        return None;
    }
    match &toks[i] {
        SchemeToken::OpenParen => match parse_list_at(toks, i + 1, fuel - 1) {
            Some((es, j)) => match make_list(es) {
                Some(e) => Some((e, j)),
                None => None,
            },
            None => None,
        },
        SchemeToken::CloseParen => None,
        SchemeToken::Str(s) => Some((Expr::Str(s.clone()), i + 1)),
        SchemeToken::Num(n) => Some((Expr::Num(*n), i + 1)),
        SchemeToken::Var(v) => Some((Expr::Var(v.clone()), i + 1)),
    }
}

fn parse_list_at(toks: &[SchemeToken], i: usize, fuel: usize) -> (r: Option<(Vec<Expr>, usize)>)
    ensures
        match parse_list(toks@, i as int, fuel as nat) {
            Some((es, j)) => r matches Some((xs, k)) && views(xs@) == es && k == j,
            None => r is None,
        },
    decreases fuel, 0int,
{
    if fuel == 0 || i >= toks.len() {
        return None;
    }
    if let SchemeToken::CloseParen = &toks[i] {
        return Some((Vec::new(), i + 1));
    }
    match parse_expr_at(toks, i, fuel - 1) {
        Some((e, j)) => match parse_list_at(toks, j, fuel - 1) {
            Some((rest, k)) => {
                let ghost ev = e@;
                let ghost rv = views(rest@);
                let mut out: Vec<Expr> = Vec::new();
                out.push(e);
                let mut rest = rest;
                out.append(&mut rest);
                assert(views(out@) =~= seq![ev] + rv);
                Some((out, k))
            },
            None => None,
        },
        None => None,
    }
}

/// The program that the tokens write: its top-level expressions in order.
/// `None` where the tokens are malformed: a closing parenthesis where an
/// expression should start, a list left open, an empty list, or a list
/// headed by `lambda` that is not `(lambda (x) body)` (see `parsed`).
pub fn parse_program(toks: &[SchemeToken]) -> (r: Option<Program>)
    requires
        toks.len() < usize::MAX / 4,
    ensures
        match parsed(toks@) {
            Some(es) => r matches Some(p) && views(p.exprs@) == es,
            None => r is None,
        },
{
    let mut exprs: Vec<Expr> = Vec::new();
    let mut i: usize = 0;
    let mut fuel: usize = 2 * toks.len() + 2;
    while i < toks.len()
        invariant
            toks.len() < usize::MAX / 4,
            fuel <= 2 * toks.len() + 2,
            parsed(toks@) == match parse_top(toks@, i as int, fuel as nat) {
                Some(rest) => Some(views(exprs@) + rest),
                None => None::<Seq<Sx>>,
            },
        decreases fuel,
    {
        if fuel == 0 {
            return None;
        }
        match parse_expr_at(toks, i, fuel - 1) {
            Some((e, j)) => {
                let ghost before = views(exprs@);
                exprs.push(e);
                proof {
                    assert(views(exprs@) =~= before.push(e@));
                    match parse_top(toks@, j as int, (fuel - 1) as nat) {
                        Some(rest) => {
                            assert(before + (seq![e@] + rest) =~= views(exprs@) + rest);
                        },
                        None => {},
                    }
                }
                i = j;
                fuel = fuel - 1;
            },
            None => {
                return None;
            },
        }
    }
    assert(views(exprs@) + Seq::<Sx>::empty() =~= views(exprs@));
    Some(Program { exprs })
}

/// `(define (Z f) ((lambda (x) (f (x x))) (lambda (x) (f (x x)))))`: the
/// fixed-point combinator that recursive definitions go through.
pub open spec fn z_source() -> Sx {
    let half = Sx::Lambda(
        "x"@,
        Box::new(Sx::Proc(seq![Sx::Var("f"@), Sx::Proc(seq![Sx::Var("x"@), Sx::Var("x"@)])])),
    );
    Sx::Proc(seq![define_var(), Sx::Proc(seq![Sx::Var("Z"@), Sx::Var("f"@)]), Sx::Proc(seq![half, half])])
}

/// One top-level expression after the rewrites: the definition's
/// parameters curried, applications brought to one argument, and a
/// recursive definition sent through `Z`; with whether it was recursive.
/// `None` where an expression cannot be asked for its definition.
pub open spec fn rewritten(e: Sx) -> Option<(Sx, bool)> {
    if !define_readable(e) {
        None
    } else {
        let r = reduced(define_reduced(e));
        if !define_readable(r) {
            None
        } else {
            Some(recursive_define(r))
        }
    }
}

/// Each of `es` rewritten, and whether any was recursive.
pub open spec fn rewritten_all(es: Seq<Sx>) -> Option<(Seq<Sx>, bool)>
    decreases es.len(),
{
    if es.len() == 0 {
        Some((Seq::empty(), false))
    } else {
        match rewritten_all(es.drop_last()) {
            Some((rs, z)) => match rewritten(es.last()) {
                Some((r, zz)) => Some((rs.push(r), z || zz)),
                None => None,
            },
            None => None,
        }
    }
}

/// The rewritten expressions, behind the rewritten `Z` definition when one
/// of them is recursive.
pub open spec fn with_z(rs: Seq<Sx>, z: bool) -> Seq<Sx> {
    if z {
        seq![reduced(define_reduced(z_source()))] + rs
    } else {
        rs
    }
}

/// The compiled program: its expressions rewritten, the `Z` definition put
/// first where needed, and the value of `(define (res) ...)` wrapped in the
/// definitions before it (see `res_lambda`). `None` where an expression
/// cannot be asked for its definition or there is no `res`.
pub open spec fn compiled(es: Seq<Sx>) -> Option<Sx> {
    match rewritten_all(es) {
        Some((rs, z)) => if all_readable(with_z(rs, z)) {
            res_lambda(with_z(rs, z))
        } else {
            None
        },
        None => None,
    }
}

/// The expression of `z_source`.
fn z_source_expr() -> (r: Expr)
    ensures
        r@ == z_source(),
{
    let fx = Expr::proc2(Expr::Var(String::from_str("f")), Expr::proc2(Expr::Var(String::from_str("x")), Expr::Var(String::from_str("x"))));
    let fx2 = Expr::proc2(Expr::Var(String::from_str("f")), Expr::proc2(Expr::Var(String::from_str("x")), Expr::Var(String::from_str("x"))));
    let a = Expr::lambda(String::from_str("x"), fx);
    let b = Expr::lambda(String::from_str("x"), fx2);
    Expr::define(String::from_str("Z"), String::from_str("f"), Expr::proc2(a, b))
}

/// Every expression of `es` can be asked for its definition.
fn all_define_readable(es: &Vec<Expr>) -> (r: bool)
    ensures
        r == all_readable(views(es@)),
{
    let mut i: usize = 0;
    while i < es.len()
        invariant
            i <= es.len(),
            forall|k: int| 0 <= k < i ==> define_readable(#[trigger] views(es@)[k]),
        decreases es.len() - i,
    {
        if !es[i].is_define_readable() {
            assert(!define_readable(views(es@)[i as int]));
            return false;
        }
        i = i + 1;
    }
    true
}

/// Whether some expression of `es` is `(define (res) ...)`.
fn has_res(es: &Vec<Expr>) -> (r: bool)
    requires
        all_readable(views(es@)),
    ensures
        r == res_lambda(views(es@)) is Some,
{
    let mut i: usize = es.len();
    assert(views(es@).take(es.len() as int) =~= views(es@));
    while i > 0
        invariant
            i <= es.len(),
            all_readable(views(es@)),
            (res_lambda(views(es@)) is Some) == (res_lambda(views(es@).take(i as int)) is Some),
        decreases i,
    {
        let ghost t = views(es@).take(i as int);
        assert(t.drop_last() =~= views(es@).take(i - 1));
        assert(t.last() == views(es@)[i - 1]);
        assert(define_readable(views(es@)[i - 1]));
        match es[i - 1].get_define() {
            Some((args, _)) => {
                let ghost names = args@.map_values(|s: String| s@);
                if args.len() == 1 && str_eq(args[0].as_str(), "res") {
                    proof {
                        assert(names =~= seq![args@[0]@]);
                        reveal_strlit("res");
                        assert(seq!["res"@] =~= seq![args@[0]@]);
                    }
                    return true;
                }
                proof {
                    if args.len() == 1 {
                        assert(names[0] == args@[0]@);
                        assert(names[0] != seq!["res"@][0]);
                    } else {
                        assert(names.len() != seq!["res"@].len());
                    }
                    assert(names != seq!["res"@]);
                }
            },
            None => {},
        }
        i = i - 1;
    }
    assert(views(es@).take(0) =~= Seq::<Sx>::empty());
    false
}

/// Compiles a Scheme program to the one expression that computes its `res`:
/// each top-level expression has its definition's parameters curried, its
/// applications brought to one argument, and, when it defines a recursive
/// function of one parameter, its recursion sent through the `Z`
/// combinator, whose definition then goes first; the value of
/// `(define (res) ...)` is wrapped in the definitions before it. `None`
/// where an expression cannot be asked for its definition or there is no
/// `res` (see `compiled`).
pub fn compile_program(program: Program) -> (r: Option<Expr>)
    ensures
        match compiled(views(program.exprs@)) {
            Some(e) => r matches Some(x) && x@ == e,
            None => r is None,
        },
{
    let ghost es = views(program.exprs@);
    let mut out: Vec<Expr> = Vec::new();
    let mut need_z = false;
    let mut i: usize = 0;
    while i < program.exprs.len()
        invariant
            i <= program.exprs.len(),
            es == views(program.exprs@),
            rewritten_all(es.take(i as int)) == Some((views(out@), need_z)),
        decreases program.exprs.len() - i,
    {
        assert(es.take(i + 1).drop_last() =~= es.take(i as int));
        assert(es.take(i + 1).last() == es[i as int]);
        let mut e = program.exprs[i].copy();
        if !e.is_define_readable() {
            proof {
                assert(rewritten(es[i as int]) is None);
                assert(rewritten_all(es.take(i + 1)) is None);
                lemma_rewritten_none(es, i as int + 1, program.exprs.len() as int);
                assert(es.take(program.exprs.len() as int) =~= es);
            }
            return None;
        }
        e.recude_define_params();
        e.reduce_proc_params();
        if !e.is_define_readable() {
            proof {
                assert(e@ == reduced(define_reduced(es[i as int])));
                assert(rewritten(es[i as int]) is None);
                assert(rewritten_all(es.take(i + 1)) is None);
                lemma_rewritten_none(es, i as int + 1, program.exprs.len() as int);
                assert(es.take(program.exprs.len() as int) =~= es);
            }
            return None;
        }
        let z = e.update_recursive_define();
        let ghost before = views(out@);
        out.push(e);
        assert(views(out@) =~= before.push(e@));
        need_z = need_z || z;
        i = i + 1;
    }
    assert(es.take(program.exprs.len() as int) =~= es);
    let mut all: Vec<Expr> = Vec::new();
    if need_z {
        let mut zd = z_source_expr();
        zd.recude_define_params();
        zd.reduce_proc_params();
        all.push(zd);
    }
    let ghost head = views(all@);
    let ghost ov = views(out@);
    all.append(&mut out);
    assert(views(all@) =~= head + ov);
    assert(views(all@) =~= with_z(ov, need_z));
    if !all_define_readable(&all) {
        return None;
    }
    if !has_res(&all) {
        return None;
    }
    let p = Program { exprs: all };
    Some(p.get_res_as_single_lambda())
}

/// A rewrite that fails on a prefix fails on every longer prefix.
proof fn lemma_rewritten_none(es: Seq<Sx>, i: int, n: int)
    requires
        0 < i <= n <= es.len(),
        rewritten_all(es.take(i)) is None,
    ensures
        rewritten_all(es.take(n)) is None,
    decreases n - i,
{
    if n > i {
        lemma_rewritten_none(es, i, n - 1);
        assert(es.take(n).drop_last() =~= es.take(n - 1));
    }
    if n == es.len() {
        assert(es.take(n) =~= es);
    }
}

} // verus!
