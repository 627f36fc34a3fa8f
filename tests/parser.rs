use derivative_calculator::lexer::lex;
use derivative_calculator::parser::Parser;

fn check(input: &str, expected: &str) {
    let mut parser = Parser::new(lex(input));
    let expr = parser.parse();

    let mut actual = expr.to_string();
    for error in parser.errors() {
        actual += &format!("\n[ERROR]: {}", error);
    }
    assert_eq!(actual, expected);
}

#[test]
fn literal() {
    check("1", "1");
    check("-3", "(-3)");
}

#[test]
fn vars() {
    check("x", "x");
    check("abc", "abc");
}

#[test]
fn bin_ops() {
    check("1 + 2", "(1 + 2)");
    check("-3 - 4", "((-3) - 4)");
    check("1 + -2", "(1 + (-2))");
    check("-3 + -4", "((-3) + (-4))");
    check("-3 + -4", "((-3) + (-4))");

    check("1 + 2", "(1 + 2)");
    check("1 - 2", "(1 - 2)");
    check("1 * 2", "(1 * 2)");
    check("1 / 2", "(1 / 2)");
    check("1 ^ 2", "(1 ^ 2)");
    check("1 ** 2", "(1 ^ 2)");
}

#[test]
fn paren() {
    check("(1)", "1");
    check("(-1)", "(-1)");

    check("(1 + 2)", "(1 + 2)");
    check("(1 + 2) * 3", "((1 + 2) * 3)");
    check("1 + (2 * 3)", "(1 + (2 * 3))");
}

#[test]
fn precedence() {
    check("1 + 2 * 3", "(1 + (2 * 3))");
    check("1 + 2 - 3", "((1 + 2) - 3)");
    check("1 * 2 + 3 * 4", "((1 * 2) + (3 * 4))");
}

#[test]
fn error_unknown_operator() {
    check("1 $ 2", "1\n[ERROR]: unexpected token");
}

#[test]
fn error_unmatched_paren() {
    check("(1", "err\n[ERROR]: unexpected token, expected a '(' token");
    check("(1 + 2", "err\n[ERROR]: unexpected token, expected a '(' token");
    check("1)", "1\n[ERROR]: unexpected token");
    check("1 + 2)", "(1 + 2)\n[ERROR]: unexpected token");
}

#[test]
fn exponent_is_right_associative() {
    check("2 ^ 3 ^ 4", "(2 ^ (3 ^ 4))");
    check("2 ** 3 ^ 4", "(2 ^ (3 ^ 4))");
}

#[test]
fn prefix_operators() {
    check("+3", "3");
    check("-x", "(-x)");
    check("--3", "3");
    check("-x ^ 2", "((-x) ^ 2)");
    check("2 * -x", "(2 * (-x))");
}

#[test]
fn missing_operand() {
    check("1 +", "(1 + err)\n[ERROR]: unexpected token, expected an expression");
    check("*", "err\n[ERROR]: unexpected token, expected an expression");
}

#[test]
fn decimal_literals() {
    check("0.5", "0.5");
    check("1.25 + .5", "(1.25 + 0.5)");
    check("3.", "3");
    check("1.2.3", "err\n[ERROR]: unexpected token, expected an expression");
}
