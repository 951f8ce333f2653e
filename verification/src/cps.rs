use vstd::prelude::*;

use crate::expr::{BinOp, Expr, Term};

verus! {

/// `f` applied to `x` by value.
pub open spec fn app_v(f: Term, x: Term) -> Term {
    Term::Bin(BinOp::AppV, Box::new(f), Box::new(x))
}

/// The continuation-passing form of a term: a variable `v` becomes
/// `\200 -> 200 v`, an application `l r` becomes
/// `\100 -> l' (\101 -> r' (\102 -> (101 102) 100))`, a function `\v -> e`
/// becomes `\100 -> 100 (\v -> e')`; every other term stays as it is.
pub open spec fn cps_term(t: Term) -> Term
    decreases t,
{
    match t {
        Term::Var(v) => Term::Lambda(200, Box::new(app_v(Term::Var(200), Term::Var(v)))),
        Term::Bin(op, l, r) => if op == BinOp::App {
            Term::Lambda(
                100,
                Box::new(
                    app_v(
                        cps_term(*l),
                        Term::Lambda(
                            101,
                            Box::new(
                                app_v(
                                    cps_term(*r),
                                    Term::Lambda(
                                        102,
                                        Box::new(
                                            app_v(
                                                app_v(Term::Var(101), Term::Var(102)),
                                                Term::Var(100),
                                            ),
                                        ),
                                    ),
                                ),
                            ),
                        ),
                    ),
                ),
            )
        } else {
            Term::Bin(op, l, r)
        },
        Term::Lambda(v, e) => Term::Lambda(
            100,
            Box::new(app_v(Term::Var(100), Term::Lambda(v, Box::new(cps_term(*e))))),
        ),
        _ => t,
    }
}

fn app_v_expr(f: Expr, x: Expr) -> (r: Expr)
    ensures
        r.term() == app_v(f.term(), x.term()),
{
    Expr::Bin(BinOp::AppV, Box::new(f), Box::new(x))
}

/// The continuation-passing form of an expression (see `cps_term`).
pub fn cps_conversion(e: &Expr) -> (r: Expr)
    ensures
        r.term() == cps_term(e.term()),
{
    cps_conv_internal(e)
}

fn cps_conv_internal(e: &Expr) -> (r: Expr)
    ensures
        r.term() == cps_term(e.term()),
    decreases e,
{
    match e {
        Expr::Var(v) => Expr::Lambda(200, Box::new(app_v_expr(Expr::Var(200), Expr::Var(*v)))),
        Expr::Bin(op, l, r) => {
            if let BinOp::App = op {
                let l = cps_conv_internal(l);
                let r = cps_conv_internal(r);
                let inner = Expr::Lambda(
                    102,
                    Box::new(app_v_expr(app_v_expr(Expr::Var(101), Expr::Var(102)), Expr::Var(100))),
                );
                let mid = Expr::Lambda(101, Box::new(app_v_expr(r, inner)));
                Expr::Lambda(100, Box::new(app_v_expr(l, mid)))
            } else {
                e.copy()
            }
        },
        Expr::Lambda(v, body) => {
            let b = cps_conv_internal(body);
            let lin = Expr::Lambda(*v, Box::new(b));
            Expr::Lambda(100, Box::new(app_v_expr(Expr::Var(100), lin)))
        },
        _ => e.copy(),
    }
}

} // verus!
