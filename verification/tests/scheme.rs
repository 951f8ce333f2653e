use icfp_spica::scheme::{Expr, Program};

fn var(s: &str) -> Expr {
    Expr::Var(s.to_string())
}

fn num(n: i32) -> Expr {
    Expr::Num(n)
}

fn app(xs: Vec<Expr>) -> Expr {
    Expr::Proc(xs)
}

fn define(head: Vec<&str>, body: Expr) -> Expr {
    app(vec![var("define"), app(head.into_iter().map(var).collect()), body])
}

#[test]
fn text_of_expressions() {
    let e = Expr::lambda("x".to_string(), app(vec![var("+"), var("x"), num(-5)]));
    assert_eq!(e.to_string(), "(lambda (x) (+ x -5))");
    assert_eq!(Expr::Str("hi".to_string()).to_string(), "\"hi\"");
    let p = Program { exprs: vec![var("a"), num(7)] };
    assert_eq!(p.to_string(), "a\n7");
}

#[test]
fn free_variables() {
    let e = Expr::lambda("x".to_string(), app(vec![var("f"), var("x")]));
    assert!(e.is_free("f"));
    assert!(!e.is_free("x"));
    assert!(!num(3).is_free("x"));
}

#[test]
fn definitions_are_read() {
    let d = define(vec!["f", "a", "b"], var("a"));
    let (names, body) = d.get_define().unwrap();
    assert_eq!(names, vec!["f".to_string(), "a".to_string(), "b".to_string()]);
    assert_eq!(body.to_string(), "a");
    assert!(app(vec![var("g"), num(1)]).get_define().is_none());
    assert_eq!(var("x").must_var(), "x");
    assert!(var("if").is_buildin_var(Some(3)));
    assert!(var("-").is_buildin_var(Some(1)));
    assert!(!var("foo").is_buildin_var(None));
}

#[test]
fn definitions_take_one_parameter() {
    let mut d = define(vec!["f", "a", "b", "c"], var("x"));
    d.recude_define_params();
    assert_eq!(d.to_string(), "(define (f a) (lambda (b) (lambda (c) x)))");
    let mut g = define(vec!["g", "a"], var("a"));
    g.recude_define_params();
    assert_eq!(g.to_string(), "(define (g a) a)");
}

#[test]
fn calls_take_one_argument() {
    let mut e = app(vec![var("g"), num(1), num(2), num(3)]);
    e.reduce_proc_params();
    assert_eq!(e.to_string(), "(((g 1) 2) 3)");
    let s = |t: &str| Expr::Str(t.to_string());
    let mut a = app(vec![var("string-append"), s("a"), s("b"), s("c"), s("d")]);
    a.reduce_proc_params();
    assert_eq!(
        a.to_string(),
        "(string-append \"a\" (string-append \"b\" (string-append \"c\" \"d\")))"
    );
    let mut plus = Expr::lambda("x".to_string(), app(vec![var("+"), var("x"), app(vec![var("h"), num(1), num(2)])]));
    plus.reduce_proc_params();
    assert_eq!(plus.to_string(), "(lambda (x) (+ x ((h 1) 2)))");
}

#[test]
fn recursion_goes_through_z() {
    let mut d = define(vec!["f", "x"], app(vec![var("f"), var("x")]));
    assert!(d.update_recursive_define());
    assert_eq!(d.to_string(), "(define (f x) ((Z (lambda (f) (lambda (x) (f x)))) x))");
    let mut e = define(vec!["f", "x"], var("x"));
    assert!(!e.update_recursive_define());
    assert_eq!(e.to_string(), "(define (f x) x)");
}

#[test]
fn icfp_tokens() {
    let e = Expr::lambda("x".to_string(), app(vec![var("+"), var("x"), num(1)]));
    assert_eq!(e.icfp(), vec!["L!", "B+", "v!", "I\""]);
    let f = Expr::lambda("f".to_string(), app(vec![var("f"), num(3)]));
    assert_eq!(f.icfp(), vec!["L!", "B$", "v!", "I$"]);
    let neg = Expr::lambda("x".to_string(), app(vec![var("-"), var("x")]));
    assert_eq!(neg.icfp(), vec!["L!", "U-", "v!"]);
    assert_eq!(Expr::Str("hi".to_string()).icfp(), vec!["S()"]);
    let shadow = Expr::lambda(
        "x".to_string(),
        Expr::lambda("x".to_string(), Expr::lambda("y".to_string(), var("y"))),
    );
    assert_eq!(shadow.icfp(), vec!["L!", "L\"", "L!", "v!"]);
}

#[test]
fn program_becomes_one_expression() {
    let p = Program {
        exprs: vec![
            define(vec!["g", "y"], var("y")),
            define(vec!["k"], num(5)),
            define(vec!["res"], app(vec![var("g"), var("k")])),
        ],
    };
    assert_eq!(
        p.get_res_as_single_lambda().to_string(),
        "((lambda (g) ((lambda (k) (g k)) 5)) (lambda (y) y))"
    );
}
