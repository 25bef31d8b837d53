use churchill::input::{classify_line, line_content, Line};

#[test]
fn blank_and_comment_lines() {
    assert_eq!(classify_line("   "), Line::Blank);
    assert_eq!(classify_line("  # only a comment"), Line::Blank);
}

#[test]
fn definition_lines() {
    assert_eq!(
        classify_line(" I = \\x.x  # identity"),
        Line::Definition("I".to_string(), "\\x.x".to_string())
    );
}

#[test]
fn invalid_name_makes_an_expression() {
    assert_eq!(
        classify_line("1x = y"),
        Line::Expression("1x = y".to_string())
    );
}

#[test]
fn expression_lines() {
    assert_eq!(
        classify_line("\t(\\x.x) y #c"),
        Line::Expression("(\\x.x) y".to_string())
    );
}

#[test]
fn content_strips_comment_and_space() {
    assert_eq!(line_content("  f x # note"), "f x");
    assert_eq!(line_content("#"), "");
}
