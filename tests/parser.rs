use churchill::ast::Expr;
use churchill::parser::{parse, ParseError, ParseErrorKind, Parser};

fn var(n: &str) -> Expr {
    Expr::Var(n.to_string())
}

fn abs(p: &str, b: Expr) -> Expr {
    Expr::Abs(p.to_string(), Box::new(b))
}

fn app(f: Expr, a: Expr) -> Expr {
    Expr::App(Box::new(f), Box::new(a))
}

#[test]
fn test_parse_var() {
    assert_eq!(parse("x").unwrap().render(), "x");
}

#[test]
fn test_parse_abs() {
    assert_eq!(parse("\\x.x").unwrap().render(), "(λx.x)");
}

#[test]
fn test_parse_app() {
    assert_eq!(parse("f x").unwrap().render(), "(f x)");
}

#[test]
fn parse_var_gives_variable() {
    assert_eq!(parse("x").unwrap(), var("x"));
}

#[test]
fn application_is_left_associative() {
    assert_eq!(parse("f x y").unwrap(), app(app(var("f"), var("x")), var("y")));
}

#[test]
fn lambda_body_extends_right() {
    assert_eq!(
        parse("\\x.\\y.x y").unwrap(),
        abs("x", abs("y", app(var("x"), var("y"))))
    );
}

#[test]
fn lambda_sign_and_backslash_agree() {
    assert_eq!(parse("λx.x").unwrap(), parse("\\x.x").unwrap());
}

#[test]
fn surrounding_white_space_is_ignored() {
    assert_eq!(parse("  ( f\tx )\n").unwrap(), app(var("f"), var("x")));
}

#[test]
fn names_take_underscores_digits_and_letters() {
    assert_eq!(parse("_a1 été").unwrap(), app(var("_a1"), var("été")));
}

#[test]
fn missing_close_paren_is_reported() {
    assert_eq!(
        parse("(x"),
        Err(ParseError { kind: ParseErrorKind::ExpectedCloseParen, position: 2 })
    );
}

#[test]
fn missing_dot_is_reported() {
    assert_eq!(
        parse("\\x x"),
        Err(ParseError { kind: ParseErrorKind::ExpectedDot, position: 3 })
    );
}

#[test]
fn missing_binder_name_is_reported() {
    assert_eq!(
        parse("\\.x"),
        Err(ParseError { kind: ParseErrorKind::ExpectedName, position: 1 })
    );
}

#[test]
fn leftover_input_is_reported() {
    assert_eq!(
        parse("x )"),
        Err(ParseError { kind: ParseErrorKind::UnexpectedChar(')'), position: 2 })
    );
}

#[test]
fn unknown_character_is_reported() {
    assert_eq!(
        parse("f #"),
        Err(ParseError { kind: ParseErrorKind::UnexpectedChar('#'), position: 2 })
    );
}

#[test]
fn empty_input_is_reported() {
    assert_eq!(
        parse("   "),
        Err(ParseError { kind: ParseErrorKind::UnexpectedEnd, position: 3 })
    );
}

#[test]
fn parser_object_parses_whole_input() {
    let mut p = Parser::new("(\\f.f) g");
    assert_eq!(p.parse().unwrap(), app(abs("f", var("f")), var("g")));
}

#[test]
fn rendered_expressions_parse_back() {
    let cases = vec![
        var("x"),
        abs("x", var("x")),
        app(abs("x", app(var("x"), var("x"))), abs("y_1", var("z"))),
        abs("f", abs("g", app(app(var("f"), var("g")), abs("h", var("h"))))),
    ];
    for e in cases {
        assert_eq!(parse(&e.render()).unwrap(), e);
    }
}

#[test]
fn render_is_fully_parenthesized() {
    let e = app(app(var("f"), var("x")), abs("y", var("y")));
    assert_eq!(e.render(), "((f x) (λy.y))");
}

#[test]
fn names_cannot_start_with_a_digit() {
    assert_eq!(
        parse("1x"),
        Err(ParseError { kind: ParseErrorKind::UnexpectedChar('1'), position: 0 })
    );
    assert_eq!(parse("f 2"), Err(ParseError { kind: ParseErrorKind::UnexpectedChar('2'), position: 2 }));
}

#[test]
fn binder_cannot_start_with_a_digit() {
    assert_eq!(
        parse("\\1.x"),
        Err(ParseError { kind: ParseErrorKind::ExpectedName, position: 1 })
    );
}

#[test]
fn digits_may_follow_the_first_character() {
    assert_eq!(parse("\\x1.x1 _2").unwrap(), abs("x1", app(var("x1"), var("_2"))));
}
