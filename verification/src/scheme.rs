//! Scheme programs compiled to the ICFP language: expressions of one-argument
//! lambdas and applications, the rewrites that bring definitions and calls
//! down to one parameter, and the ICFP tokens of an expression.
use vstd::prelude::*;

use crate::compiler::{binary_op, binary_token, unary_op, unary_token};
use crate::base94::{digit_of, encodable, encode_base94, encode_base94_int, encode_str, encoded, numeral_of};
use crate::printer::{decimal_text, usize_text};
use crate::text::{append_str, push_char, str_eq};

verus! {

/// A Scheme expression.
#[derive(Debug)]
pub enum Expr {
    Lambda(String, Box<Expr>),
    Proc(Vec<Expr>),
    Str(String),
    Num(i32),
    Var(String),
}

/// The model of a Scheme expression: its strings as character sequences.
pub enum Sx {
    Lambda(Seq<char>, Box<Sx>),
    Proc(Seq<Sx>),
    Str(Seq<char>),
    Num(i32),
    Var(Seq<char>),
}

/// The model of `e`.
pub open spec fn sx_of(e: Expr) -> Sx
    decreases e,
{
    match e {
        Expr::Lambda(n, b) => Sx::Lambda(n@, Box::new(sx_of(*b))),
        Expr::Proc(args) => Sx::Proc(sx_all(args@)),
        Expr::Str(s) => Sx::Str(s@),
        Expr::Num(n) => Sx::Num(n),
        Expr::Var(v) => Sx::Var(v@),
    }
}

/// The models of `es`.
pub open spec fn sx_all(es: Seq<Expr>) -> Seq<Sx>
    decreases es,
{
    if es.len() == 0 {
        Seq::empty()
    } else {
        seq![sx_of(es[0])] + sx_all(es.drop_first())
    }
}

impl View for Expr {
    type V = Sx;

    open spec fn view(&self) -> Sx {
        sx_of(*self)
    }
}

proof fn lemma_sx_all(es: Seq<Expr>)
    ensures
        sx_all(es).len() == es.len(),
        forall|i: int| 0 <= i < es.len() ==> #[trigger] sx_all(es)[i] == sx_of(es[i]),
    decreases es.len(),
{
    if es.len() > 0 {
        lemma_sx_all(es.drop_first());
        assert forall|i: int| 0 <= i < es.len() implies #[trigger] sx_all(es)[i] == sx_of(es[i]) by {
            if i > 0 {
                assert(sx_all(es)[i] == sx_all(es.drop_first())[i - 1]);
            }
        }
    }
}

/// The models of `es`, element by element.
pub open spec fn views(es: Seq<Expr>) -> Seq<Sx> {
    Seq::new(es.len(), |i: int| sx_of(es[i]))
}

pub(crate) proof fn lemma_views(es: Seq<Expr>)
    ensures
        sx_all(es) == views(es),
{
    lemma_sx_all(es);
    assert(sx_all(es) =~= views(es));
}

impl Expr {
    /// A copy of the expression.
    pub fn copy(&self) -> (r: Expr)
        ensures
            r@ == self@,
        decreases self,
    {
        match self {
            Expr::Lambda(n, b) => Expr::Lambda(n.clone(), Box::new(b.copy())),
            Expr::Proc(args) => {
                let r = copy_all(args);
                proof {
                    lemma_views(args@);
                    lemma_views(r@);
                    assert(views(r@) =~= views(args@));
                }
                Expr::Proc(r)
            },
            Expr::Str(s) => Expr::Str(s.clone()),
            Expr::Num(n) => Expr::Num(*n),
            Expr::Var(v) => Expr::Var(v.clone()),
        }
    }
}

/// Copies of the expressions of `es`.
fn copy_all(es: &Vec<Expr>) -> (r: Vec<Expr>)
    ensures
        r.len() == es.len(),
        forall|i: int| 0 <= i < es.len() ==> (#[trigger] r@[i])@ == es@[i]@,
    decreases es,
{
    let mut r: Vec<Expr> = Vec::new();
    let mut i: usize = 0;
    while i < es.len()
        invariant
            i <= es.len(),
            r.len() == i,
            forall|k: int| 0 <= k < i ==> (#[trigger] r@[k])@ == es@[k]@,
        decreases es.len() - i,
    {
        assert(decreases_to!(es => es@[i as int]));
        r.push(es[i].copy());
        i = i + 1;
    }
    r
}

/// `name` occurs free in `e`: as a variable, not under a lambda that binds
/// it.
pub open spec fn free_in(e: Sx, name: Seq<char>) -> bool
    decreases e,
{
    match e {
        Sx::Var(v) => v == name,
        Sx::Proc(args) => free_in_any(args, name),
        Sx::Lambda(n, body) => n != name && free_in(*body, name),
        _ => false,
    }
}

/// `name` occurs free in one of `es`.
pub open spec fn free_in_any(es: Seq<Sx>, name: Seq<char>) -> bool
    decreases es,
{
    if es.len() == 0 {
        false
    } else {
        free_in_any(es.drop_last(), name) || free_in(es.last(), name)
    }
}

/// `e` is the variable `name`.
pub open spec fn is_var_named(e: Sx, name: Seq<char>) -> bool {
    e matches Sx::Var(v) && v == name
}

/// `v` names a form or an operator that the compiler knows.
pub open spec fn builtin_name(v: Seq<char>) -> bool {
    v == "define"@ || v == "if"@ || binary_token(v) is Some || unary_token(v) is Some
}

/// The known name `v` may be applied to `a` arguments (`define` to any
/// number).
pub open spec fn arity_ok(v: Seq<char>, a: int) -> bool {
    ||| v == "define"@
    ||| v == "if"@ && a == 3
    ||| binary_token(v) is Some && a == 2
    ||| unary_token(v) is Some && a == 1
}

/// `e` is a variable that names a form or an operator the compiler knows.
pub open spec fn builtin_var(e: Sx) -> bool {
    e matches Sx::Var(v) && builtin_name(v)
}

/// `e` is a `define` form: an application whose head is `define`.
pub open spec fn is_define_form(e: Sx) -> bool {
    e matches Sx::Proc(args) && args.len() > 0 && is_var_named(args[0], "define"@)
}

/// The names of the variables in `e`, an application of variables (none
/// for anything else).
pub open spec fn var_names(e: Sx) -> Seq<Seq<char>> {
    match e {
        Sx::Proc(args) => Seq::new(args.len(), |i: int| args[i]->Var_0),
        _ => Seq::empty(),
    }
}

/// `e` is an application of variables only, or no application.
pub open spec fn vars_only(e: Sx) -> bool {
    e matches Sx::Proc(args) ==> forall|i: int| 0 <= i < args.len() ==> #[trigger] args[i] is Var
}

/// `e` can be asked for its definition: no empty application, and a
/// `define` has a head and a body, the head made of variables.
pub open spec fn define_readable(e: Sx) -> bool {
    &&& e matches Sx::Proc(args) ==> args.len() > 0
    &&& is_define_form(e) ==> e->Proc_0.len() == 3 && vars_only(e->Proc_0[1])
}

/// The definition that `e` makes: the names of its head and its body.
pub open spec fn define_parts(e: Sx) -> Option<(Seq<Seq<char>>, Sx)> {
    if is_define_form(e) {
        Some((var_names(e->Proc_0[1]), e->Proc_0[2]))
    } else {
        None
    }
}

/// The variable `define`.
pub open spec fn define_var() -> Sx {
    Sx::Var("define"@)
}

fn define_string() -> (r: String)
    ensures
        r@ == "define"@,
{
    String::from_str("define")
}

proof fn lemma_proc_view(v: Vec<Expr>)
    ensures
        sx_of(Expr::Proc(v)) == Sx::Proc(views(v@)),
{
    lemma_views(v@);
}

impl Expr {
    /// The lambda of one parameter `name` with body `expr`.
    pub fn lambda(name: String, expr: Expr) -> (r: Expr)
        ensures
            r@ == Sx::Lambda(name@, Box::new(expr@)),
    {
        Expr::Lambda(name, Box::new(expr))
    }

    /// `(define (name var) expr)`.
    pub fn define(name: String, var: String, expr: Expr) -> (r: Expr)
        ensures
            r@ == Sx::Proc(seq![define_var(), Sx::Proc(seq![Sx::Var(name@), Sx::Var(var@)]), expr@]),
    {
        let head = vec![Expr::Var(name), Expr::Var(var)];
        let ghost hv = head@;
        let h = Expr::Proc(head);
        let d = Expr::Var(define_string());
        let ghost ev = expr@;
        let args = vec![d, h, expr];
        let ghost av = args@;
        proof {
            lemma_views(hv);
            assert(views(hv) =~= seq![sx_of(hv[0]), sx_of(hv[1])]);
            lemma_views(av);
            assert(views(av) =~= seq![define_var(), sx_of(av[1]), ev]);
        }
        Expr::Proc(args)
    }

    /// The application of `x` to `y`.
    pub fn proc2(x: Expr, y: Expr) -> (r: Expr)
        ensures
            r@ == Sx::Proc(seq![x@, y@]),
    {
        let ghost xv = x@;
        let ghost yv = y@;
        let args = vec![x, y];
        proof {
            lemma_proc_view(args);
            assert(views(args@) =~= seq![xv, yv]);
        }
        Expr::Proc(args)
    }

    /// The application of `x` to `y` and `z`.
    pub fn proc3(x: Expr, y: Expr, z: Expr) -> (r: Expr)
        ensures
            r@ == Sx::Proc(seq![x@, y@, z@]),
    {
        let ghost xv = x@;
        let ghost yv = y@;
        let ghost zv = z@;
        let args = vec![x, y, z];
        proof {
            lemma_proc_view(args);
            assert(views(args@) =~= seq![xv, yv, zv]);
        }
        Expr::Proc(args)
    }

    /// Whether the expression is the variable `string-append`, which takes
    /// any number of arguments.
    fn is_variadic(&self) -> (r: bool)
        ensures
            r == is_var_named(self@, "string-append"@),
    {
        match self {
            Expr::Var(v) => str_eq(v.as_str(), "string-append"),
            _ => false,
        }
    }

    /// Whether the expression is a variable that names a form or operator
    /// the compiler knows; given an arity, it must be one the name takes.
    pub fn is_buildin_var(&self, check_arity: Option<usize>) -> (r: bool)
        requires
            check_arity matches Some(a) ==> (builtin_var(self@) ==> arity_ok(self@->Var_0, a as int)),
        ensures
            r == builtin_var(self@),
    {
        match self {
            Expr::Var(v) => {
                if str_eq(v.as_str(), "define") {
                    return true;
                }
                let is_if = str_eq(v.as_str(), "if");
                let bin = binary_op(v.as_str()).is_some();
                let un = unary_op(v.as_str()).is_some();
                is_if || bin || un
            },
            _ => false,
        }
    }

    /// The name of the variable.
    pub fn must_var(&self) -> (r: String)
        requires
            self@ is Var,
        ensures
            self@ == Sx::Var(r@),
    {
        match self {
            Expr::Var(v) => v.clone(),
            _ => String::new(),
        }
    }

    /// Copies of the arguments of the application.
    pub fn must_proc(&self) -> (r: Vec<Expr>)
        requires
            self@ is Proc,
        ensures
            self@ == Sx::Proc(views(r@)),
    {
        match self {
            Expr::Proc(args) => {
                let r = copy_all(args);
                proof {
                    lemma_views(args@);
                    assert(views(r@) =~= views(args@));
                }
                r
            },
            _ => Vec::new(),
        }
    }

    /// Whether the expression is a `define` form.
    fn is_define(&self) -> (r: bool)
        requires
            self@ matches Sx::Proc(args) ==> args.len() > 0,
        ensures
            r == is_define_form(self@),
    {
        proof {
            if self is Proc {
                lemma_views(self->Proc_0@);
            }
        }
        match self {
            Expr::Proc(args) => match &args[0] {
                Expr::Var(v) => str_eq(v.as_str(), "define"),
                _ => false,
            },
            _ => false,
        }
    }

    /// The names of the variables of an application (none for anything
    /// else).
    fn define_vars(&self) -> (r: Vec<String>)
        requires
            vars_only(self@),
        ensures
            r@.map_values(|s: String| s@) == var_names(self@),
    {
        proof {
            if self is Proc {
                lemma_views(self->Proc_0@);
            }
        }
        let mut r: Vec<String> = Vec::new();
        match self {
            Expr::Proc(args) => {
                let mut i: usize = 0;
                while i < args.len()
                    invariant
                        i <= args.len(),
                        self@ == Sx::Proc(views(args@)),
                        vars_only(self@),
                        r@.map_values(|s: String| s@) =~= var_names(self@).take(i as int),
                    decreases args.len() - i,
                {
                    assert(views(args@)[i as int] is Var);
                    let name = args[i].must_var();
                    assert(var_names(self@)[i as int] == name@);
                    let ghost before = r@;
                    r.push(name);
                    assert(r@.map_values(|s: String| s@) =~= before.map_values(|s: String| s@).push(name@));
                    assert(var_names(self@).take(i + 1) =~= var_names(self@).take(i as int).push(name@));
                    i = i + 1;
                }
                assert(var_names(self@).take(args.len() as int) =~= var_names(self@));
            },
            _ => {},
        }
        r
    }

    /// Whether the expression can be asked for its definition (see
    /// `define_readable`).
    pub fn is_define_readable(&self) -> (r: bool)
        ensures
            r == define_readable(self@),
    {
        proof {
            if self is Proc {
                lemma_views(self->Proc_0@);
            }
        }
        match self {
            Expr::Proc(args) => {
                if args.len() == 0 {
                    return false;
                }
                if !self.is_define() {
                    return true;
                }
                if args.len() != 3 {
                    return false;
                }
                match &args[1] {
                    Expr::Proc(hs) => {
                        proof {
                            lemma_views(hs@);
                            assert(views(args@)[1] == Sx::Proc(views(hs@)));
                        }
                        all_vars(hs)
                    },
                    _ => true,
                }
            },
            _ => true,
        }
    }

    /// The definition that the expression makes, if it is a `define`: the
    /// names of its head and a copy of its body.
    pub fn get_define(&self) -> (r: Option<(Vec<String>, Expr)>)
        requires
            define_readable(self@),
        ensures
            match define_parts(self@) {
                Some((names, body)) => r matches Some((vs, b)) && vs@.map_values(|s: String| s@) == names
                    && b@ == body,
                None => r is None,
            },
    {
        if !self.is_define() {
            return None;
        }
        proof {
            lemma_views(self->Proc_0@);
        }
        match self {
            Expr::Proc(args) => {
                let vars = args[1].define_vars();
                Some((vars, args[2].copy()))
            },
            _ => None,
        }
    }

    /// Whether `name` occurs free in the expression.
    pub fn is_free(&self, name: &str) -> (r: bool)
        ensures
            r == free_in(self@, name@),
        decreases self,
    {
        match self {
            Expr::Var(v) => str_eq(v.as_str(), name),
            Expr::Proc(args) => {
                proof {
                    lemma_views(args@);
                }
                free_in_args(args, name)
            },
            Expr::Lambda(n, body) => {
                if str_eq(name, n.as_str()) {
                    false
                } else {
                    body.is_free(name)
                }
            },
            _ => false,
        }
    }
}

/// Whether `name` occurs free in one of `args`.
fn free_in_args(args: &Vec<Expr>, name: &str) -> (r: bool)
    ensures
        r == free_in_any(views(args@), name@),
    decreases args,
{
    let mut found = false;
    let mut i: usize = 0;
    while i < args.len()
        invariant
            i <= args.len(),
            found == free_in_any(views(args@).take(i as int), name@),
        decreases args.len() - i,
    {
        assert(decreases_to!(args => args@[i as int]));
        let f = args[i].is_free(name);
        assert(views(args@).take(i + 1).drop_last() =~= views(args@).take(i as int));
        found = found || f;
        i = i + 1;
    }
    assert(views(args@).take(args.len() as int) =~= views(args@));
    found
}

/// The `define` of `names` (the function, then its parameters) with body
/// `body`, with every parameter after the first moved into a lambda of the
/// body, the last innermost; a `define` of a known name, or of at most one
/// parameter, stays as it is.
pub open spec fn curried_define(names: Seq<Seq<char>>, body: Sx) -> Sx
    decreases names.len(),
{
    if names.len() <= 2 || builtin_name(names[0]) {
        Sx::Proc(seq![define_var(), Sx::Proc(names.map_values(|n: Seq<char>| Sx::Var(n))), body])
    } else {
        curried_define(names.drop_last(), Sx::Lambda(names.last(), Box::new(body)))
    }
}

/// `e` with its definition's parameters curried (see `curried_define`); an
/// expression that is no `define` of more than one parameter stays as it
/// is.
pub open spec fn define_reduced(e: Sx) -> Sx {
    match define_parts(e) {
        Some((names, body)) => if names.len() <= 2 || builtin_name(names[0]) {
            e
        } else {
            curried_define(names, body)
        },
        None => e,
    }
}

/// The number of names in the head of the definition that `e` makes.
pub open spec fn define_width(e: Sx) -> nat {
    match define_parts(e) {
        Some((names, _)) => names.len(),
        None => 0,
    }
}

/// `(define (f x) body)` for a `body` where `f` occurs free becomes
/// `(define (f x) ((Z (lambda (f) (lambda (x) body))) x))`; the flag says
/// whether it did.
pub open spec fn recursive_define(e: Sx) -> (Sx, bool) {
    match define_parts(e) {
        Some((names, body)) => if names.len() == 2 && free_in(body, names[0]) {
            (
                Sx::Proc(
                    seq![
                        define_var(),
                        Sx::Proc(seq![Sx::Var(names[0]), Sx::Var(names[1])]),
                        Sx::Proc(
                            seq![
                                Sx::Proc(
                                    seq![
                                        Sx::Var("Z"@),
                                        Sx::Lambda(names[0], Box::new(Sx::Lambda(names[1], Box::new(body)))),
                                    ],
                                ),
                                Sx::Var(names[1]),
                            ],
                        ),
                    ],
                ),
                true,
            )
        } else {
            (e, false)
        },
        None => (e, false),
    }
}

/// Every expression of `es` is a variable.
fn all_vars(es: &Vec<Expr>) -> (r: bool)
    ensures
        r == forall|k: int| 0 <= k < es.len() ==> #[trigger] views(es@)[k] is Var,
{
    let mut i: usize = 0;
    while i < es.len()
        invariant
            i <= es.len(),
            forall|k: int| 0 <= k < i ==> #[trigger] views(es@)[k] is Var,
        decreases es.len() - i,
    {
        match &es[i] {
            Expr::Var(_) => {},
            _ => {
                assert(!(views(es@)[i as int] is Var));
                return false;
            },
        }
        i = i + 1;
    }
    true
}

/// Variables named by `names`.
fn vars_of(names: &Vec<String>) -> (r: Vec<Expr>)
    ensures
        views(r@) == names@.map_values(|n: String| Sx::Var(n@)),
{
    let mut r: Vec<Expr> = Vec::new();
    let mut i: usize = 0;
    while i < names.len()
        invariant
            i <= names.len(),
            views(r@) == names@.take(i as int).map_values(|n: String| Sx::Var(n@)),
        decreases names.len() - i,
    {
        let ghost before = r@;
        let c = names[i].clone();
        assert(c@ == names@[i as int]@);
        r.push(Expr::Var(c));
        assert(views(r@) =~= views(before).push(Sx::Var(names@[i as int]@)));
        assert(names@.take(i + 1).map_values(|n: String| Sx::Var(n@)) =~= names@.take(i as int).map_values(
            |n: String| Sx::Var(n@),
        ).push(Sx::Var(names@[i as int]@)));
        i = i + 1;
    }
    assert(names@.take(names.len() as int) =~= names@);
    r
}

impl Expr {
    /// Moves every parameter of a `define` after the first into a lambda of
    /// its body (see `define_reduced`).
    pub fn recude_define_params(&mut self)
        requires
            define_readable(old(self)@),
        ensures
            final(self)@ == define_reduced(old(self)@),
        decreases define_width(old(self)@),
    {
        let ghost e0 = self@;
        let (mut vars, expr) = match self.get_define() {
            Some(p) => p,
            None => {
                return;
            },
        };
        let ghost names = vars@.map_values(|s: String| s@);
        if vars.len() <= 2 || Expr::Var(vars[0].clone()).is_buildin_var(None) {
            return;
        }
        let last_var = vars.pop().unwrap();
        proof {
            assert(vars@.map_values(|s: String| s@) =~= names.drop_last());
        }
        let lambda = Expr::lambda(last_var, expr);
        let head = vars_of(&vars);
        let ghost hv = head@;
        let new_proc = Expr::proc3(Expr::Var(define_string()), Expr::Proc(head), lambda);
        *self = new_proc;
        proof {
            lemma_views(hv);
            let m = names.drop_last().map_values(|n: Seq<char>| Sx::Var(n));
            assert(m =~= views(hv));
            assert(define_parts(self@) == Some((names.drop_last(), Sx::Lambda(names.last(), Box::new(define_parts(e0).unwrap().1)))));
            assert(var_names(Sx::Proc(m)) =~= names.drop_last());
        }
        self.recude_define_params();
    }

    /// Rewrites a recursive one-parameter `define` to go through the `Z`
    /// combinator (see `recursive_define`); whether it did.
    pub fn update_recursive_define(&mut self) -> (r: bool)
        requires
            define_readable(old(self)@),
        ensures
            (final(self)@, r) == recursive_define(old(self)@),
    {
        let (args, expr) = match self.get_define() {
            Some(p) => p,
            None => {
                return false;
            },
        };
        if args.len() != 2 {
            return false;
        }
        let f = &args[0];
        let x = &args[1];
        if !expr.is_free(f.as_str()) {
            return false;
        }
        let z = Expr::Var(String::from_str("Z"));
        let inner = Expr::lambda(f.clone(), Expr::lambda(x.clone(), expr));
        let body = Expr::proc2(Expr::proc2(z, inner), Expr::Var(x.clone()));
        *self = Expr::define(f.clone(), x.clone(), body);
        true
    }
}

/// `(f a1 ... an)` applied one argument at a time: `((f a1 ... an-1) an)`,
/// down to two elements.
pub open spec fn left_nest(rs: Seq<Sx>) -> Sx
    decreases rs.len(),
{
    if rs.len() <= 2 {
        Sx::Proc(rs)
    } else {
        Sx::Proc(seq![left_nest(rs.drop_last()), rs.last()])
    }
}

/// `(h a1 ... an)` for an operator `h` of two arguments, nested to the
/// right: `(h a1 (h a2 ... (h an-1 an)))`.
pub open spec fn right_nest(h: Sx, args: Seq<Sx>) -> Sx
    decreases args.len(),
{
    if args.len() <= 2 {
        Sx::Proc(seq![h] + args)
    } else {
        Sx::Proc(seq![h, args[0], right_nest(h, args.drop_first())])
    }
}

/// The application of the elements `rs`, brought to one argument: a
/// `string-append` of more than two strings nests to the right, another
/// application of more than one argument to an unknown function is applied
/// one argument at a time, and the rest stays.
pub open spec fn shaped(rs: Seq<Sx>) -> Sx {
    if rs.len() > 3 && is_var_named(rs[0], "string-append"@) {
        right_nest(rs[0], rs.drop_first())
    } else if rs.len() <= 2 || builtin_var(rs[0]) {
        Sx::Proc(rs)
    } else {
        left_nest(rs)
    }
}

/// `e` with every application brought to one argument (see `shaped`),
/// innermost first.
pub open spec fn reduced(e: Sx) -> Sx
    decreases e,
{
    match e {
        Sx::Lambda(n, b) => Sx::Lambda(n, Box::new(reduced(*b))),
        Sx::Proc(args) => shaped(reduced_all(args)),
        _ => e,
    }
}

/// Each of `es` reduced.
pub open spec fn reduced_all(es: Seq<Sx>) -> Seq<Sx>
    decreases es,
{
    if es.len() == 0 {
        Seq::empty()
    } else {
        reduced_all(es.drop_last()).push(reduced(es.last()))
    }
}

/// The reduced copy of `e`.
fn reduced_expr(e: &Expr) -> (r: Expr)
    ensures
        r@ == reduced(e@),
    decreases e,
{
    match e {
        Expr::Lambda(n, b) => Expr::Lambda(n.clone(), Box::new(reduced_expr(b))),
        Expr::Proc(args) => {
            proof {
                lemma_views(args@);
            }
            let rs = reduce_all(args);
            shape(rs)
        },
        _ => e.copy(),
    }
}

/// The reduced copies of `args`.
fn reduce_all(args: &Vec<Expr>) -> (r: Vec<Expr>)
    ensures
        views(r@) == reduced_all(views(args@)),
    decreases args,
{
    let mut r: Vec<Expr> = Vec::new();
    let mut i: usize = 0;
    while i < args.len()
        invariant
            i <= args.len(),
            views(r@) == reduced_all(views(args@).take(i as int)),
        decreases args.len() - i,
    {
        assert(decreases_to!(args => args@[i as int]));
        let x = reduced_expr(&args[i]);
        let ghost before = r@;
        r.push(x);
        assert(views(args@).take(i + 1).drop_last() =~= views(args@).take(i as int));
        assert(views(r@) =~= views(before).push(x@));
        i = i + 1;
    }
    assert(views(args@).take(args.len() as int) =~= views(args@));
    r
}

/// The application of `rs`, nested to the left (see `left_nest`).
fn left_nested(rs: Vec<Expr>) -> (r: Expr)
    ensures
        r@ == left_nest(views(rs@)),
    decreases rs.len(),
{
    proof {
        lemma_views(rs@);
    }
    if rs.len() <= 2 {
        return Expr::Proc(rs);
    }
    let mut rs = rs;
    let ghost all = views(rs@);
    let lst = rs.pop().unwrap();
    assert(views(rs@) =~= all.drop_last());
    let l = left_nested(rs);
    Expr::proc2(l, lst)
}

/// The application of `rs` brought to one argument (see `shaped`).
fn shape(rs: Vec<Expr>) -> (r: Expr)
    ensures
        r@ == shaped(views(rs@)),
{
    let ghost all = views(rs@);
    proof {
        lemma_views(rs@);
    }
    if rs.len() > 3 && rs[0].is_variadic() {
        let mut rs = rs;
        let ghost orig = rs@;
        let n = rs.len();
        let lst = rs.pop().unwrap();
        let before_lst = rs.pop().unwrap();
        assert(lst == orig[n - 1] && before_lst == orig[n - 2]);
        assert(sx_of(orig[n - 1]) == all[n - 1] && sx_of(orig[n - 2]) == all[n - 2]);
        assert(rs@[0] == orig[0]);
        let mut acc = Expr::proc3(rs[0].copy(), before_lst, lst);
        proof {
            assert(all.subrange(all.len() - 2, all.len() as int) =~= seq![all[all.len() - 2], all[all.len() - 1]]);
            assert(seq![all[0]] + seq![all[n - 2], all[n - 1]] =~= seq![all[0], all[n - 2], all[n - 1]]);
            assert(acc@ == right_nest(all[0], all.subrange(all.len() - 2, all.len() as int)));
        }
        while rs.len() > 2
            invariant
                2 <= rs.len() <= all.len() - 2,
                forall|k: int| 0 <= k < rs.len() ==> #[trigger] sx_of(rs@[k]) == all[k],
                acc@ == right_nest(all[0], all.subrange(rs.len() as int, all.len() as int)),
                all.len() > 3,
            decreases rs.len(),
        {
            let x = rs.pop().unwrap();
            let ghost k = rs.len() as int;
            let h = rs[0].copy();
            proof {
                let tail = all.subrange(k, all.len() as int);
                assert(tail.drop_first() =~= all.subrange(k + 1, all.len() as int));
                assert(tail[0] == all[k]);
            }
            acc = Expr::proc3(h, x, acc);
        }
        let ghost h0 = all[0];
        rs.push(acc);
        proof {
            lemma_views(rs@);
            assert(all.subrange(1, all.len() as int) =~= all.drop_first());
            let tail = all.drop_first();
            assert(tail.drop_first() =~= all.subrange(2, all.len() as int));
            assert(views(rs@) =~= seq![all[0], all[1], right_nest(h0, all.subrange(2, all.len() as int))]);
        }
        Expr::Proc(rs)
    } else if rs.len() <= 2 || rs[0].is_buildin_var(None) {
        Expr::Proc(rs)
    } else {
        left_nested(rs)
    }
}

impl Expr {
    /// Brings every application to one argument, innermost first (see
    /// `reduced`).
    pub fn reduce_proc_params(&mut self)
        ensures
            final(self)@ == reduced(old(self)@),
    {
        let r = reduced_expr(self);
        *self = r;
    }
}

/// The lambda numbers of the variables that entries bind: a later entry for
/// a name hides the earlier ones.
pub open spec fn env_map(env: Seq<(String, i32)>) -> Map<Seq<char>, int>
    decreases env.len(),
{
    if env.len() == 0 {
        Map::empty()
    } else {
        env_map(env.drop_last()).insert(env.last().0@, env.last().1 as int)
    }
}

/// No entry after `p` binds the name of the entry at `p`.
pub open spec fn visible(env: Seq<(String, i32)>, p: int) -> bool {
    forall|q: int| p < q < env.len() ==> (#[trigger] env[q]).0@ != env[p].0@
}

/// The entry at `p`, hidden by no later one, gives its name's number.
proof fn lemma_env_at(env: Seq<(String, i32)>, p: int)
    requires
        0 <= p < env.len(),
        visible(env, p),
    ensures
        env_map(env).contains_key(env[p].0@),
        env_map(env)[env[p].0@] == env[p].1,
    decreases env.len(),
{
    let n = env.len() - 1;
    if p < n {
        let pre = env.drop_last();
        assert(env[n].0@ != env[p].0@);
        assert(pre[p] == env[p]);
        assert forall|q: int| p < q < pre.len() implies (#[trigger] pre[q]).0@ != pre[p].0@ by {
            assert(pre[q] == env[q]);
        }
        lemma_env_at(pre, p);
    }
}

/// A bound name has a last entry, which gives its number.
proof fn lemma_env_last(env: Seq<(String, i32)>, k: Seq<char>) -> (p: int)
    requires
        env_map(env).contains_key(k),
    ensures
        0 <= p < env.len(),
        env[p].0@ == k,
        visible(env, p),
        env_map(env)[k] == env[p].1,
    decreases env.len(),
{
    let n = env.len() - 1;
    if env.len() > 0 && env[n].0@ == k {
        n
    } else {
        let pre = env.drop_last();
        let p = lemma_env_last(pre, k);
        assert(env[p] == pre[p]);
        assert forall|q: int| p < q < env.len() implies (#[trigger] env[q]).0@ != env[p].0@ by {
            if q < n {
                assert(pre[q] == env[q]);
            }
        }
        p
    }
}

/// The numbers bound are those of the entries hidden by no later one.
proof fn lemma_env_values(env: Seq<(String, i32)>, v: int)
    ensures
        env_map(env).values().contains(v) <==> exists|p: int|
            0 <= p < env.len() && visible(env, p) && (#[trigger] env[p]).1 == v,
{
    let m = env_map(env);
    if m.values().contains(v) {
        let k = choose|k: Seq<char>| #[trigger] m.contains_key(k) && m[k] == v;
        let p = lemma_env_last(env, k);
        assert(env[p].1 == v);
    }
    if exists|p: int| 0 <= p < env.len() && visible(env, p) && (#[trigger] env[p]).1 == v {
        let p = choose|p: int| 0 <= p < env.len() && visible(env, p) && (#[trigger] env[p]).1 == v;
        lemma_env_at(env, p);
        assert(m.contains_key(env[p].0@) && m[env[p].0@] == v);
    }
}

/// The number of `k` in the entries, if they bind it.
fn env_lookup(env: &Vec<(String, i32)>, k: &str) -> (r: Option<i32>)
    ensures
        match r {
            Some(v) => env_map(env@).contains_key(k@) && env_map(env@)[k@] == v,
            None => !env_map(env@).contains_key(k@),
        },
{
    let mut p = env.len();
    while p > 0
        invariant
            p <= env.len(),
            forall|q: int| p <= q < env.len() ==> (#[trigger] env@[q]).0@ != k@,
        decreases p,
    {
        if str_eq(env[p - 1].0.as_str(), k) {
            proof {
                assert forall|q: int| p - 1 < q < env.len() implies (#[trigger] env@[q]).0@ != env@[p - 1].0@ by {}
                lemma_env_at(env@, p - 1);
            }
            return Some(env[p - 1].1);
        }
        p = p - 1;
    }
    proof {
        if env_map(env@).contains_key(k@) {
            let q = lemma_env_last(env@, k@);
        }
    }
    None
}

/// Whether no entry after `p` binds the name of the entry at `p`.
fn is_visible(env: &Vec<(String, i32)>, p: usize) -> (r: bool)
    requires
        p < env.len(),
    ensures
        r == visible(env@, p as int),
{
    let mut q = p + 1;
    while q < env.len()
        invariant
            p < q <= env.len(),
            forall|j: int| p < j < q ==> (#[trigger] env@[j]).0@ != env@[p as int].0@,
        decreases env.len() - q,
    {
        if str_eq(env[q].0.as_str(), env[p].0.as_str()) {
            return false;
        }
        q = q + 1;
    }
    true
}

/// Whether some name is bound to the number `v`.
fn has_value(env: &Vec<(String, i32)>, v: i32) -> (r: bool)
    ensures
        r == env_map(env@).values().contains(v as int),
{
    proof {
        lemma_env_values(env@, v as int);
    }
    let mut p: usize = 0;
    while p < env.len()
        invariant
            p <= env.len(),
            forall|j: int| 0 <= j < p ==> !(visible(env@, j) && (#[trigger] env@[j]).1 == v),
        decreases env.len() - p,
    {
        if env[p].1 == v && is_visible(env, p) {
            proof {
                lemma_env_values(env@, v as int);
                assert(env@[p as int].1 == v);
            }
            return true;
        }
        p = p + 1;
    }
    false
}

/// `i` is the least number not among `vals`.
pub open spec fn fresh_at(vals: Set<int>, i: int) -> bool {
    0 <= i && !vals.contains(i) && forall|j: int| 0 <= j < i ==> vals.contains(j)
}

/// The least number not among `vals`.
pub open spec fn fresh_num(vals: Set<int>) -> int {
    choose|i: int| fresh_at(vals, i)
}

/// The number of a new lambda: the least one not bound, which must be a
/// base-94 digit.
fn fresh_number(env: &Vec<(String, i32)>) -> (r: i32)
    requires
        exists|f: int| fresh_at(env_map(env@).values(), f) && f < 94,
    ensures
        r == fresh_num(env_map(env@).values()),
        0 <= r < 94,
{
    let ghost vals = env_map(env@).values();
    let ghost f = choose|f: int| fresh_at(vals, f) && f < 94;
    let mut i: i32 = 0;
    while has_value(env, i)
        invariant
            vals == env_map(env@).values(),
            fresh_at(vals, f),
            f < 94,
            0 <= i <= f,
            forall|j: int| 0 <= j < i ==> vals.contains(j),
        decreases f - i,
    {
        i = i + 1;
    }
    proof {
        assert(fresh_at(vals, i as int));
        let c = fresh_num(vals);
        assert(fresh_at(vals, c));
        if c < i {
            assert(vals.contains(c));
        }
        if i < c {
            assert(vals.contains(i as int));
        }
    }
    i
}

/// The ICFP token of the variable `k`: an operator's own token (the unary
/// one where `unary`), `?` for `if`, else its lambda number.
pub open spec fn var_token(k: Seq<char>, env: Map<Seq<char>, int>, unary: bool) -> Seq<char> {
    if unary && unary_token(k) is Some {
        unary_token(k).unwrap()
    } else if binary_token(k) is Some {
        binary_token(k).unwrap()
    } else if k == "if"@ {
        "?"@
    } else {
        seq!['v', digit_of(env[k])]
    }
}

/// The variable `k` has a token: an operator, `if`, or a bound variable
/// (not `lambda`) whose number is a base-94 digit.
pub open spec fn var_ok(k: Seq<char>, env: Map<Seq<char>, int>, unary: bool) -> bool {
    ||| unary && unary_token(k) is Some
    ||| binary_token(k) is Some
    ||| k == "if"@
    ||| k != "lambda"@ && env.contains_key(k) && 0 <= env[k] < 94
}

/// The ICFP tokens of `e`, prefix notation, with the lambda numbers `env`
/// of its bound variables; `unary` where `e` is an element of an
/// application of one argument. A lambda takes the least number not bound.
pub open spec fn tokens(e: Sx, env: Map<Seq<char>, int>, unary: bool) -> Seq<Seq<char>>
    decreases e,
{
    match e {
        Sx::Var(k) => seq![var_token(k, env, unary)],
        Sx::Proc(args) => (if args.len() != 1 && !builtin_var(args[0]) {
            seq!["B$"@]
        } else {
            Seq::empty()
        }) + tokens_all(args, env, args.len() == 2),
        Sx::Lambda(n, b) => {
            let f = fresh_num(env.values());
            seq![seq!['L', digit_of(f)]] + tokens(*b, env.insert(n, f), false)
        },
        Sx::Str(s) => seq![seq!['S'] + encoded(s)],
        Sx::Num(n) => seq![seq!['I'] + numeral_of(n as nat)],
    }
}

/// The tokens of each of `es`, in order.
pub open spec fn tokens_all(es: Seq<Sx>, env: Map<Seq<char>, int>, unary: bool) -> Seq<Seq<char>>
    decreases es,
{
    if es.len() == 0 {
        Seq::empty()
    } else {
        tokens_all(es.drop_last(), env, unary) + tokens(es.last(), env, unary)
    }
}

/// `e` has tokens: every variable has one, every application has a head,
/// is applied to one argument unless it is a known operator or form with an
/// arity it takes, no more than 94 lambda numbers are needed at once, every
/// string is in the alphabet and no number is negative.
pub open spec fn icfp_ok(e: Sx, env: Map<Seq<char>, int>, unary: bool) -> bool
    decreases e,
{
    match e {
        Sx::Var(k) => var_ok(k, env, unary),
        Sx::Proc(args) => {
            &&& args.len() >= 1
            &&& args.len() != 1 ==> (if builtin_var(args[0]) {
                arity_ok(args[0]->Var_0, args.len() - 1)
            } else {
                args.len() == 2
            })
            &&& all_icfp_ok(args, env, args.len() == 2)
        },
        Sx::Lambda(n, b) => {
            &&& exists|f: int| fresh_at(env.values(), f) && f < 94
            &&& icfp_ok(*b, env.insert(n, fresh_num(env.values())), false)
        },
        Sx::Str(s) => encodable(s),
        Sx::Num(n) => n >= 0,
    }
}

/// Each of `es` has tokens.
pub open spec fn all_icfp_ok(es: Seq<Sx>, env: Map<Seq<char>, int>, unary: bool) -> bool
    decreases es,
{
    es.len() == 0 || (all_icfp_ok(es.drop_last(), env, unary) && icfp_ok(es.last(), env, unary))
}

proof fn lemma_all_icfp_ok(es: Seq<Sx>, env: Map<Seq<char>, int>, unary: bool, i: int)
    requires
        all_icfp_ok(es, env, unary),
        0 <= i < es.len(),
    ensures
        icfp_ok(es[i], env, unary),
    decreases es.len(),
{
    if i < es.len() - 1 {
        assert(es.drop_last()[i] == es[i]);
        lemma_all_icfp_ok(es.drop_last(), env, unary, i);
    }
}

/// The contents of strings.
pub open spec fn strs(v: Seq<String>) -> Seq<Seq<char>> {
    v.map_values(|s: String| s@)
}

/// The string of the two characters `a` and `b`.
fn two_chars(a: char, b: char) -> (r: String)
    ensures
        r@ == seq![a, b],
{
    let mut t = String::new();
    push_char(&mut t, a);
    push_char(&mut t, b);
    assert(t@ =~= seq![a, b]);
    t
}

/// Appends the tokens of each of `args`.
fn icfp_args(args: &Vec<Expr>, res: &mut Vec<String>, env: &mut Vec<(String, i32)>, unary: bool)
    requires
        all_icfp_ok(views(args@), env_map(old(env)@), unary),
    ensures
        strs(final(res)@) == strs(old(res)@) + tokens_all(views(args@), env_map(old(env)@), unary),
        final(env)@ == old(env)@,
    decreases args,
{
    let ghost e0 = env@;
    let ghost r0 = strs(res@);
    let mut i: usize = 0;
    while i < args.len()
        invariant
            i <= args.len(),
            env@ == e0,
            all_icfp_ok(views(args@), env_map(e0), unary),
            strs(res@) == r0 + tokens_all(views(args@).take(i as int), env_map(e0), unary),
        decreases args.len() - i,
    {
        assert(decreases_to!(args => args@[i as int]));
        proof {
            lemma_all_icfp_ok(views(args@), env_map(e0), unary, i as int);
        }
        args[i].icfp_inner(res, env, unary);
        assert(views(args@).take(i + 1).drop_last() =~= views(args@).take(i as int));
        i = i + 1;
    }
    assert(views(args@).take(args.len() as int) =~= views(args@));
}

impl Expr {
    /// The ICFP tokens of the expression, its variables bound by `env`
    /// (see `tokens`); `env` ends as it began.
    fn icfp_inner(&self, res: &mut Vec<String>, env: &mut Vec<(String, i32)>, unary: bool)
        requires
            icfp_ok(self@, env_map(old(env)@), unary),
        ensures
            strs(final(res)@) == strs(old(res)@) + tokens(self@, env_map(old(env)@), unary),
            final(env)@ == old(env)@,
        decreases self,
    {
        let ghost r0 = res@;
        match self {
            Expr::Var(k) => {
                if unary {
                    match unary_op(k.as_str()) {
                        Some(u) => {
                            res.push(u);
                            assert(strs(res@) =~= strs(r0).push(u@));
                            return;
                        },
                        None => {},
                    }
                }
                match binary_op(k.as_str()) {
                    Some(b) => {
                        res.push(b);
                        assert(strs(res@) =~= strs(r0).push(b@));
                        return;
                    },
                    None => {},
                }
                if str_eq(k.as_str(), "if") {
                    let q = String::from_str("?");
                    res.push(q);
                    assert(strs(res@) =~= strs(r0).push("?"@));
                    return;
                }
                let v = match env_lookup(env, k.as_str()) {
                    Some(v) => v,
                    None => {
                        return;
                    },
                };
                let c = match encode_base94(v as i64) {
                    Ok(c) => c,
                    Err(_) => {
                        return;
                    },
                };
                let t = two_chars('v', c);
                res.push(t);
                assert(strs(res@) =~= strs(r0).push(seq!['v', c]));
            },
            Expr::Proc(args) => {
                proof {
                    lemma_views(args@);
                }
                if args.len() == 1 {
                } else if !args[0].is_buildin_var(Some(args.len() - 1)) {
                    res.push(String::from_str("B$"));
                    assert(strs(res@) =~= strs(r0).push("B$"@));
                }
                let ghost r1 = strs(res@);
                icfp_args(args, res, env, args.len() == 2);
                proof {
                    if args.len() != 1 && !builtin_var(views(args@)[0]) {
                        assert(r1 == strs(r0) + seq!["B$"@]);
                    } else {
                        assert(r1 =~= strs(r0) + Seq::<Seq<char>>::empty());
                    }
                    assert(strs(res@) =~= strs(r0) + tokens(self@, env_map(old(env)@), unary));
                }
            },
            Expr::Lambda(name, body) => {
                let ghost e0 = env@;
                let f = fresh_number(env);
                let c = match encode_base94(f as i64) {
                    Ok(c) => c,
                    Err(_) => {
                        return;
                    },
                };
                let t = two_chars('L', c);
                res.push(t);
                let ghost r1 = strs(res@);
                assert(r1 =~= strs(r0).push(seq!['L', c]));
                env.push((name.clone(), f));
                assert(env_map(env@) == env_map(e0).insert(name@, f as int)) by {
                    assert(env@.drop_last() =~= e0);
                }
                body.icfp_inner(res, env, false);
                env.pop();
                assert(env@ =~= e0);
                assert(strs(res@) =~= strs(r0) + tokens(self@, env_map(e0), unary));
            },
            Expr::Str(s) => {
                match encode_str(s.as_str()) {
                    Ok(t) => {
                        let tok = String::from_str("S").concat(t.as_str());
                        proof {
                            reveal_strlit("S");
                            assert(tok@ =~= seq!['S'] + encoded(s@));
                        }
                        res.push(tok);
                        assert(strs(res@) =~= strs(r0).push(seq!['S'] + encoded(s@)));
                    },
                    Err(_) => {},
                }
            },
            Expr::Num(n) => {
                match encode_base94_int(*n as i64) {
                    Ok(t) => {
                        let tok = String::from_str("I").concat(t.as_str());
                        proof {
                            reveal_strlit("I");
                            assert(tok@ =~= seq!['I'] + numeral_of(*n as nat));
                        }
                        res.push(tok);
                        assert(strs(res@) =~= strs(r0).push(seq!['I'] + numeral_of(*n as nat)));
                    },
                    Err(_) => {},
                }
            },
        }
    }

    /// The ICFP tokens of the expression (see `tokens`), with no variable
    /// bound beforehand.
    pub fn icfp(&self) -> (r: Vec<String>)
        requires
            icfp_ok(self@, Map::empty(), false),
        ensures
            strs(r@) == tokens(self@, Map::empty(), false),
    {
        let mut res: Vec<String> = Vec::new();
        let mut env: Vec<(String, i32)> = Vec::new();
        assert(env_map(env@) =~= Map::<Seq<char>, int>::empty());
        self.icfp_inner(&mut res, &mut env, false);
        assert(strs(Seq::<String>::empty()) =~= Seq::<Seq<char>>::empty());
        res
    }
}

/// The text of `e`, in Scheme syntax.
pub open spec fn sx_text(e: Sx) -> Seq<char>
    decreases e,
{
    match e {
        Sx::Lambda(n, b) => "(lambda ("@ + n + ") "@ + sx_text(*b) + ")"@,
        Sx::Proc(args) => "("@ + joined(args) + ")"@,
        Sx::Str(s) => "\""@ + s + "\""@,
        Sx::Num(n) => decimal_text(n as int),
        Sx::Var(v) => v,
    }
}

/// The texts of `es`, separated by spaces.
pub open spec fn joined(es: Seq<Sx>) -> Seq<char>
    decreases es,
{
    if es.len() == 0 {
        Seq::empty()
    } else if es.len() == 1 {
        sx_text(es[0])
    } else {
        joined(es.drop_last()) + " "@ + sx_text(es.last())
    }
}

/// The decimal numeral of `n`.
fn i32_text(n: i32) -> (r: String)
    ensures
        r@ == decimal_text(n as int),
{
    if n < 0 {
        let m = (-(n as i64)) as usize;
        let mut t = String::from_str("-");
        let d = usize_text(m);
        append_str(&mut t, d.as_str());
        proof {
            reveal_strlit("-");
        }
        assert(t@ =~= seq!['-'] + decimal_text(n as int).skip(1));
        t
    } else {
        usize_text(n as usize)
    }
}

/// Appends the texts of `args`, separated by spaces.
fn text_args(args: &Vec<Expr>, out: &mut String)
    ensures
        final(out)@ == old(out)@ + joined(views(args@)),
    decreases args,
{
    let ghost o = out@;
    let mut i: usize = 0;
    while i < args.len()
        invariant
            i <= args.len(),
            out@ == o + joined(views(args@).take(i as int)),
        decreases args.len() - i,
    {
        assert(decreases_to!(args => args@[i as int]));
        if i > 0 {
            append_str(out, " ");
        }
        let t = args[i].to_string();
        append_str(out, t.as_str());
        proof {
            let pre = views(args@).take(i as int);
            let cur = views(args@).take(i + 1);
            assert(cur.drop_last() =~= pre);
            if i == 0 {
                assert(pre =~= Seq::<Sx>::empty());
            }
        }
        i = i + 1;
    }
    assert(views(args@).take(args.len() as int) =~= views(args@));
}

impl Expr {
    /// The text of the expression, in Scheme syntax (see `sx_text`).
    pub fn to_string(&self) -> (r: String)
        ensures
            r@ == sx_text(self@),
        decreases self,
    {
        match self {
            Expr::Lambda(name, body) => {
                let mut t = String::from_str("(lambda (");
                append_str(&mut t, name.as_str());
                append_str(&mut t, ") ");
                let b = body.to_string();
                append_str(&mut t, b.as_str());
                append_str(&mut t, ")");
                t
            },
            Expr::Proc(args) => {
                proof {
                    lemma_views(args@);
                }
                let mut t = String::from_str("(");
                text_args(args, &mut t);
                append_str(&mut t, ")");
                t
            },
            Expr::Str(s) => {
                let mut t = String::from_str("\"");
                append_str(&mut t, s.as_str());
                append_str(&mut t, "\"");
                t
            },
            Expr::Num(n) => i32_text(*n),
            Expr::Var(v) => v.clone(),
        }
    }
}

/// A Scheme program: its top-level expressions, in order.
pub struct Program {
    pub exprs: Vec<Expr>,
}

/// `expr` wrapped in the definitions of `es`, the last innermost: a
/// definition of a value binds its name around `expr` by an application of
/// a lambda to the value, a definition of a function of one parameter binds
/// its name to a lambda of that parameter, and other expressions are left
/// out.
pub open spec fn single_from(es: Seq<Sx>, expr: Sx) -> Sx
    decreases es.len(),
{
    if es.len() == 0 {
        expr
    } else {
        let rest = es.drop_last();
        match define_parts(es.last()) {
            Some((names, def)) => if names.len() == 1 {
                single_from(rest, Sx::Proc(seq![Sx::Lambda(names[0], Box::new(expr)), def]))
            } else if names.len() == 2 {
                single_from(
                    rest,
                    Sx::Proc(seq![Sx::Lambda(names[0], Box::new(expr)), Sx::Lambda(names[1], Box::new(def))]),
                )
            } else {
                single_from(rest, expr)
            },
            None => single_from(rest, expr),
        }
    }
}

/// The value of the last `(define (res) ...)` of `es` as one expression,
/// wrapped in the definitions before it (see `single_from`); none when there
/// is no such definition.
pub open spec fn res_lambda(es: Seq<Sx>) -> Option<Sx>
    decreases es.len(),
{
    if es.len() == 0 {
        None
    } else {
        match define_parts(es.last()) {
            Some((names, body)) => if names == seq!["res"@] {
                Some(single_from(es.drop_last(), body))
            } else {
                res_lambda(es.drop_last())
            },
            None => res_lambda(es.drop_last()),
        }
    }
}

/// Each of `es` can be asked for its definition.
pub open spec fn all_readable(es: Seq<Sx>) -> bool {
    forall|i: int| 0 <= i < es.len() ==> define_readable(#[trigger] es[i])
}

impl Program {
    /// The program as one expression: the value of its `(define (res)
    /// ...)` wrapped in the definitions before it (see `res_lambda`).
    pub fn get_res_as_single_lambda(&self) -> (r: Expr)
        requires
            all_readable(views(self.exprs@)),
            res_lambda(views(self.exprs@)) is Some,
        ensures
            r@ == res_lambda(views(self.exprs@)).unwrap(),
    {
        let exprs = copy_all(&self.exprs);
        assert(views(exprs@) =~= views(self.exprs@));
        let mut p = Program { exprs };
        p.get_res_as_single_lambda_inner()
    }

    pub(crate) fn get_res_as_single_lambda_inner(&mut self) -> (r: Expr)
        requires
            all_readable(views(old(self).exprs@)),
            res_lambda(views(old(self).exprs@)) is Some,
        ensures
            r@ == res_lambda(views(old(self).exprs@)).unwrap(),
        decreases old(self).exprs.len(),
    {
        let ghost es = views(self.exprs@);
        let lst = self.exprs.pop().unwrap();
        proof {
            assert(views(self.exprs@) =~= es.drop_last());
            assert(lst@ == es.last());
        }
        match lst.get_define() {
            Some((args, expr)) => {
                if args.len() == 1 && str_eq(args[0].as_str(), "res") {
                    proof {
                        assert(args@.map_values(|s: String| s@) =~= seq![args@[0]@]);
                        reveal_strlit("res");
                        assert(seq!["res"@] =~= seq![args@[0]@]);
                    }
                    self.make_single_lambda(expr)
                } else {
                    proof {
                        let names = args@.map_values(|s: String| s@);
                        if args.len() == 1 {
                            assert(names[0] == args@[0]@);
                            assert(args@[0]@ != "res"@);
                            assert(names[0] != seq!["res"@][0]);
                        } else {
                            assert(names.len() != seq!["res"@].len());
                        }
                        assert(names != seq!["res"@]);
                    }
                    self.get_res_as_single_lambda_inner()
                }
            },
            None => self.get_res_as_single_lambda_inner(),
        }
    }

    fn make_single_lambda(&mut self, expr: Expr) -> (r: Expr)
        requires
            all_readable(views(old(self).exprs@)),
        ensures
            r@ == single_from(views(old(self).exprs@), expr@),
        decreases old(self).exprs.len(),
    {
        let ghost es = views(self.exprs@);
        let lst = match self.exprs.pop() {
            Some(l) => l,
            None => {
                return expr;
            },
        };
        proof {
            assert(views(self.exprs@) =~= es.drop_last());
            assert(lst@ == es.last());
        }
        match lst.get_define() {
            Some((args, def)) => {
                if args.len() == 1 {
                    let nxt = Expr::proc2(Expr::lambda(args[0].clone(), expr), def);
                    self.make_single_lambda(nxt)
                } else if args.len() == 2 {
                    let nxt = Expr::proc2(Expr::lambda(args[0].clone(), expr), Expr::lambda(args[1].clone(), def));
                    self.make_single_lambda(nxt)
                } else {
                    self.make_single_lambda(expr)
                }
            },
            None => self.make_single_lambda(expr),
        }
    }

    /// The program's expressions, one a line.
    pub fn to_string(&self) -> (r: String)
        ensures
            r@ == lines_of(views(self.exprs@)),
    {
        let mut t = String::new();
        let mut i: usize = 0;
        proof {
            lemma_views(self.exprs@);
        }
        while i < self.exprs.len()
            invariant
                i <= self.exprs.len(),
                t@ == lines_of(views(self.exprs@).take(i as int)),
            decreases self.exprs.len() - i,
        {
            if i > 0 {
                append_str(&mut t, "\n");
            }
            let x = self.exprs[i].to_string();
            append_str(&mut t, x.as_str());
            proof {
                assert(views(self.exprs@).take(i + 1).drop_last() =~= views(self.exprs@).take(i as int));
                if i == 0 {
                    assert(views(self.exprs@).take(0) =~= Seq::<Sx>::empty());
                }
            }
            i = i + 1;
        }
        assert(views(self.exprs@).take(self.exprs.len() as int) =~= views(self.exprs@));
        t
    }
}

/// The texts of `es`, one a line.
pub open spec fn lines_of(es: Seq<Sx>) -> Seq<char>
    decreases es.len(),
{
    if es.len() == 0 {
        Seq::empty()
    } else if es.len() == 1 {
        sx_text(es[0])
    } else {
        lines_of(es.drop_last()) + "\n"@ + sx_text(es.last())
    }
}

} // verus!
