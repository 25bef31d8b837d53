use churchill::ast::Expr;
use churchill::evaluator::{evaluate, evaluate_with_limit, expand, reduce_once, substitute, Environment};
use churchill::parser::parse;
use churchill::utils::is_valid_ident;

fn var(n: &str) -> Expr {
    Expr::Var(n.to_string())
}

fn abs(p: &str, b: Expr) -> Expr {
    Expr::Abs(p.to_string(), Box::new(b))
}

fn app(f: Expr, a: Expr) -> Expr {
    Expr::App(Box::new(f), Box::new(a))
}

#[test]
fn test_identity() {
    let expr = parse("(\\x.x) y").unwrap();
    let res = evaluate(&expr).unwrap();
    assert_eq!(res, Expr::Var("y".to_string()));
}

#[test]
fn test_k_combinator() {
    let expr = parse("(\\x.\\y.x) a b").unwrap();
    let res = evaluate(&expr).unwrap();
    assert_eq!(res, Expr::Var("a".to_string()));
}

#[test]
fn identity_renders_argument() {
    let res = evaluate(&parse("(\\x.x) y").unwrap()).unwrap();
    assert_eq!(res.render(), "y");
}

#[test]
fn k_combinator_renders_first_argument() {
    let res = evaluate(&parse("(\\x.\\y.x) a b").unwrap()).unwrap();
    assert_eq!(res.render(), "a");
}

#[test]
fn expansion_then_evaluation() {
    let mut env = Environment::new();
    env.insert("I".to_string(), parse("\\x.x").unwrap());
    let e = expand(&parse("I z").unwrap(), &env);
    assert_eq!(e, app(abs("x", var("x")), var("z")));
    assert_eq!(evaluate(&e).unwrap().render(), "z");
}

#[test]
fn expansion_leaves_bound_and_unknown_names() {
    let mut env = Environment::new();
    env.insert("x".to_string(), var("q"));
    let e = expand(&parse("(\\x.x) x w").unwrap(), &env);
    assert_eq!(e, app(app(abs("x", var("x")), var("q")), var("w")));
}

#[test]
fn expansion_is_recursive() {
    let mut env = Environment::new();
    env.insert("I".to_string(), parse("\\x.x").unwrap());
    env.insert("J".to_string(), var("I"));
    assert_eq!(expand(&var("J"), &env), abs("x", var("x")));
}

#[test]
fn expansion_stops_at_cyclic_definitions() {
    let mut env = Environment::new();
    env.insert("A".to_string(), var("B"));
    env.insert("B".to_string(), var("A"));
    assert_eq!(expand(&var("A"), &env), var("A"));
}

#[test]
fn later_binding_replaces_earlier() {
    let mut env = Environment::new();
    env.insert("I".to_string(), var("a"));
    env.insert("I".to_string(), var("b"));
    assert_eq!(env.get("I"), Some(&var("b")));
    assert_eq!(env.get("K"), None);
}

#[test]
fn omega_diverges() {
    let omega = parse("(\\x.(x x)) (\\x.(x x))").unwrap();
    let r = evaluate_with_limit(&omega, 1000);
    assert_eq!(r, Err("Maximum reduction steps exceeded".to_string()));
}

#[test]
fn limit_counts_steps() {
    let e = parse("(\\x.x) y").unwrap();
    assert!(evaluate_with_limit(&e, 1).is_err());
    assert_eq!(evaluate_with_limit(&e, 2).unwrap(), var("y"));
}

#[test]
fn substitution_renames_capturing_binder() {
    let e = evaluate(&parse("(\\x.\\y.x) y").unwrap()).unwrap();
    assert_eq!(e, abs("y_", var("y")));
    let fv = e.free_vars();
    assert!(fv.contains("y"));
    assert!(!fv.contains("y_"));
}

#[test]
fn fresh_binder_outgrows_names_in_scope() {
    let e = evaluate(&parse("(\\x.\\y.x abc) y").unwrap()).unwrap();
    assert_eq!(e, abs("y___", app(var("y"), var("abc"))));
}

#[test]
fn substitution_stops_at_shadowing_binder() {
    let e = evaluate(&parse("(\\x.\\x.x) a").unwrap()).unwrap();
    assert_eq!(e, abs("x", var("x")));
}

#[test]
fn free_vars_of_expression() {
    let e = parse("\\x.x y (\\z.z w)").unwrap();
    let fv = e.free_vars();
    assert!(fv.contains("y"));
    assert!(fv.contains("w"));
    assert!(!fv.contains("x"));
    assert!(!fv.contains("z"));
}

#[test]
fn normal_form_has_no_redex() {
    let n = evaluate(&parse("(\\f.\\x.f (f x)) (\\y.y) q").unwrap()).unwrap();
    assert_eq!(n, var("q"));
    assert!(reduce_once(&n).is_none());
}

#[test]
fn evaluation_is_deterministic() {
    let a = evaluate(&parse("(\\x.\\y.x y) y").unwrap()).unwrap();
    let b = evaluate(&parse("(\\x.\\y.x y) y").unwrap()).unwrap();
    assert_eq!(a, b);
}

#[test]
fn reduction_is_normal_order() {
    let e = parse("(\\x.z) ((\\x.(x x)) (\\x.(x x)))").unwrap();
    assert_eq!(evaluate(&e).unwrap(), var("z"));
}

#[test]
fn reduction_goes_under_binders() {
    let e = parse("\\a.(\\x.x) a").unwrap();
    assert_eq!(reduce_once(&e), Some(abs("a", var("a"))));
}

#[test]
fn identifiers() {
    assert!(is_valid_ident("foo_1"));
    assert!(is_valid_ident("_x"));
    assert!(is_valid_ident("λ"));
    assert!(!is_valid_ident("1x"));
    assert!(!is_valid_ident(""));
    assert!(!is_valid_ident("a-b"));
    assert!(!is_valid_ident("a b"));
}

#[test]
fn expansion_under_binder_can_capture() {
    let mut env = Environment::new();
    env.insert("K".to_string(), var("y"));
    let e = expand(&parse("\\y.K").unwrap(), &env);
    assert_eq!(e, abs("y", var("y")));
}

#[test]
fn substitution_keeps_unrelated_free_variables() {
    let e = parse("\\y.x y w").unwrap();
    let r = substitute(&e, &"x".to_string(), &parse("y z").unwrap());
    assert_eq!(r, abs("y_", app(app(app(var("y"), var("z")), var("y_")), var("w"))));
    let fv = r.free_vars();
    assert!(fv.contains("y") && fv.contains("z") && fv.contains("w"));
    assert!(!fv.contains("x") && !fv.contains("y_"));
}

#[test]
fn substitution_for_absent_variable_changes_nothing() {
    let e = parse("\\y.y w").unwrap();
    let r = substitute(&e, &"x".to_string(), &var("y"));
    assert_eq!(r.free_vars().contains("w"), true);
    assert_eq!(r.free_vars().contains("y"), false);
}
