use icfp_spica::packing::compress;
use icfp_spica::bignum::BigNum;
use icfp_spica::expr::{BinOp, Expr, UnOp};
use icfp_spica::notation::{is_fix, pp, simplify_comb, to_haskell, to_scheme};

fn num(n: u32, negative: bool) -> Expr {
    if n == 0 {
        Expr::Int(BigNum { negative: false, magnitude: vec![] })
    } else {
        Expr::Int(BigNum { negative, magnitude: vec![n] })
    }
}

fn var(v: usize) -> Expr {
    Expr::Var(v)
}

fn bin(op: BinOp, l: Expr, r: Expr) -> Expr {
    Expr::Bin(op, Box::new(l), Box::new(r))
}

fn lam(v: usize, e: Expr) -> Expr {
    Expr::Lambda(v, Box::new(e))
}

fn half(f: usize, x: usize) -> Expr {
    lam(x, bin(BinOp::App, var(f), bin(BinOp::App, var(x), var(x))))
}

fn fix(f: usize, x: usize) -> Expr {
    lam(f, bin(BinOp::App, half(f, x), half(f, x)))
}

#[test]
fn fixed_point_combinator_is_recognised() {
    assert!(is_fix(&fix(1, 2)));
    assert!(!is_fix(&lam(1, bin(BinOp::App, half(1, 2), half(3, 2)))));
    assert!(!is_fix(&var(1)));
    assert_eq!(pp(&fix(1, 2)), "fix");
    assert_eq!(pp(&bin(BinOp::App, fix(1, 2), var(3))), "(fix v3)");
}

#[test]
fn compact_notation() {
    assert_eq!(pp(&Expr::Bool(true)), "T");
    assert_eq!(pp(&num(42, true)), "-42");
    assert_eq!(pp(&Expr::String("a\"b".to_string())), "\"a\\\"b\"");
    assert_eq!(pp(&Expr::Un(UnOp::Neg, Box::new(var(3)))), "-v3");
    assert_eq!(pp(&Expr::Un(UnOp::IntToStr, Box::new(var(3)))), "int-to-str v3");
    assert_eq!(pp(&bin(BinOp::Take, var(1), var(2))), "take (v1) (v2)");
    assert_eq!(pp(&bin(BinOp::Mod, var(1), num(2, false))), "(v1 % 2)");
    assert_eq!(pp(&lam(1, lam(2, bin(BinOp::Add, var(1), var(2))))), "(\\v1 v2 -> (v1 + v2))");
    assert_eq!(
        pp(&Expr::If(Box::new(Expr::Bool(false)), Box::new(var(1)), Box::new(var(2)))),
        "(if F then v1 else v2)"
    );
}

#[test]
fn haskell_source() {
    assert_eq!(to_haskell(&Expr::Bool(false)), "False");
    assert_eq!(to_haskell(&num(255, false)), "0xff");
    assert_eq!(to_haskell(&num(26, true)), "-0x1a");
    assert_eq!(to_haskell(&num(0, false)), "0x0");
    assert_eq!(to_haskell(&var(usize::MAX)), "fix");
    assert_eq!(to_haskell(&Expr::Un(UnOp::Not, Box::new(bin(BinOp::Eq, var(1), var(2))))), "(v1 /= v2)");
    assert_eq!(to_haskell(&Expr::Un(UnOp::Not, Box::new(var(1)))), "(not v1)");
    assert_eq!(to_haskell(&bin(BinOp::App, lam(4, var(4)), num(1, false))), "(let v4 = 0x1 in v4)");
    assert_eq!(
        to_haskell(&bin(BinOp::Or, bin(BinOp::Or, var(1), var(2)), var(3))),
        "(v1 || v2 || v3)"
    );
    assert_eq!(
        to_haskell(&bin(BinOp::And, bin(BinOp::Or, var(1), var(2)), var(3))),
        "((v1 || v2) && v3)"
    );
    assert_eq!(to_haskell(&bin(BinOp::Mod, var(1), var(2))), "(v1 `mod`v2)");
    assert_eq!(to_haskell(&bin(BinOp::Div, var(1), var(2))), "(v1 `div` v2)");
    assert_eq!(to_haskell(&bin(BinOp::Drop, var(1), var(2))), "(drop v1 v2)");
    assert_eq!(to_haskell(&lam(1, lam(2, var(1)))), "(\\v1 v2 -> v1)");
}

#[test]
fn combinators_become_fix() {
    let e = bin(BinOp::App, fix(1, 2), lam(3, var(3)));
    let s = simplify_comb(&e);
    assert_eq!(s, bin(BinOp::App, var(usize::MAX), lam(3, var(3))));
    assert_eq!(to_haskell(&s), "(fix (\\v3 -> v3))");
}

#[test]
fn lazy_scheme_source() {
    assert_eq!(to_scheme(&Expr::Bool(true)), "(lazy #t)");
    assert_eq!(to_scheme(&num(7, false)), "(lazy 7)");
    assert_eq!(
        to_scheme(&bin(BinOp::Add, var(1), num(2, false))),
        "(lazy (+ (force (lazy v1)) (force (lazy 2))))"
    );
    assert_eq!(
        to_scheme(&bin(BinOp::Take, var(1), var(2))),
        "(lazy (string-take (force (lazy v2)) (force (lazy v1))))"
    );
    assert_eq!(
        to_scheme(&bin(BinOp::App, var(1), var(2))),
        "(lazy ((force (lazy v1)) (lazy v2)))"
    );
    assert_eq!(to_scheme(&lam(1, var(1))), "(lazy (lambda (v1) (lazy (lazy v1))))");
    assert_eq!(
        to_scheme(&Expr::If(Box::new(Expr::Bool(true)), Box::new(var(1)), Box::new(var(2)))),
        "(lazy (if (force (lazy #t)) (lazy (lazy v1)) (lazy (lazy v2))))"
    );
    assert_eq!(to_scheme(&bin(BinOp::AppL, var(1), var(2))), "(lazy Not support op AppL)");
}

#[test]
fn routes_pack_two_bits_a_move() {
    let r = compress("RL");
    assert_eq!(r.magnitude, vec![17]);
    assert!(compress("").magnitude.is_empty());
    assert_eq!(compress("UD").magnitude, vec![14]);
    assert_eq!(compress("L").magnitude, vec![4]);
}
