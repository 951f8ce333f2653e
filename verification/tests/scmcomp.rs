use icfp_spica::scheme::Expr;
use icfp_spica::scmcomp::{compile_program, parse_program, SchemeToken};

fn open() -> SchemeToken {
    SchemeToken::OpenParen
}

fn close() -> SchemeToken {
    SchemeToken::CloseParen
}

fn var(s: &str) -> SchemeToken {
    SchemeToken::Var(s.to_string())
}

/// `(define (name) body...)` tokens, with `body` already tokenized.
fn define0(name: &str, body: Vec<SchemeToken>) -> Vec<SchemeToken> {
    let mut v = vec![open(), var("define"), open(), var(name), close()];
    v.extend(body);
    v.push(close());
    v
}

#[test]
fn parse_define_and_compile_res() {
    let toks = define0("res", vec![open(), var("+"), SchemeToken::Num(1), SchemeToken::Num(2), close()]);
    let p = parse_program(&toks).unwrap();
    assert_eq!(p.exprs.len(), 1);
    assert_eq!(p.exprs[0].to_string(), "(define (res) (+ 1 2))");
    let e = compile_program(p).unwrap();
    assert_eq!(e.to_string(), "(+ 1 2)");
}

#[test]
fn parse_lambda_form() {
    let toks = vec![open(), var("lambda"), open(), var("x"), close(), var("x"), close()];
    let p = parse_program(&toks).unwrap();
    assert!(matches!(&p.exprs[0], Expr::Lambda(n, _) if n == "x"));
    assert_eq!(p.exprs[0].to_string(), "(lambda (x) x)");
}

#[test]
fn parse_refuses_malformed() {
    assert!(parse_program(&[close()]).is_none());
    assert!(parse_program(&[open()]).is_none());
    assert!(parse_program(&[open(), close()]).is_none());
    assert!(parse_program(&[open(), var("f"), var("x")]).is_none());
    assert!(parse_program(&[open(), var("lambda"), var("x"), var("x"), close()]).is_none());
    assert_eq!(parse_program(&[]).unwrap().exprs.len(), 0);
}

#[test]
fn compile_recursive_define_through_z() {
    let mut toks = vec![open(), var("define"), open(), var("f"), var("x"), close(), open(), var("f"), var("x"), close(), close()];
    toks.extend(define0("res", vec![open(), var("f"), SchemeToken::Num(1), close()]));
    let p = parse_program(&toks).unwrap();
    let e = compile_program(p).unwrap();
    assert_eq!(
        e.to_string(),
        "((lambda (Z) ((lambda (f) (f 1)) (lambda (x) ((Z (lambda (f) (lambda (x) (f x)))) x)))) \
         (lambda (f) ((lambda (x) (f (x x))) (lambda (x) (f (x x))))))"
    );
}

#[test]
fn compile_curries_parameters() {
    // (define (g a b) (+ a b)) (define (res) (g 1 2))
    let mut toks = vec![open(), var("define"), open(), var("g"), var("a"), var("b"), close()];
    toks.extend(vec![open(), var("+"), var("a"), var("b"), close(), close()]);
    toks.extend(define0("res", vec![open(), var("g"), SchemeToken::Num(1), SchemeToken::Num(2), close()]));
    let e = compile_program(parse_program(&toks).unwrap()).unwrap();
    assert_eq!(e.to_string(), "((lambda (g) ((g 1) 2)) (lambda (a) (lambda (b) (+ a b))))");
}

#[test]
fn compile_without_res_is_none() {
    let toks = define0("x", vec![SchemeToken::Num(1)]);
    assert!(compile_program(parse_program(&toks).unwrap()).is_none());
}
