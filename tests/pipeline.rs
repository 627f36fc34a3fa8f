use derivative_calculator::lexer::lex;
use derivative_calculator::parser::{walk_expr, Expr, ExprVisitor, Parser};
use derivative_calculator::pipeline::process;
use derivative_calculator::transformations::derivative::derivative;
use derivative_calculator::transformations::prettify::Prettify;
use derivative_calculator::transformations::simplify::Simplify;

fn parse_expr(s: &str) -> Expr {
    Parser::new(lex(s)).parse()
}

fn simplified(s: &str) -> Expr {
    let mut e = parse_expr(s);
    Simplify.visit(&mut e);
    e
}

fn run(input: &str) -> (String, String, Vec<String>) {
    let o = process(input).unwrap();
    assert_eq!(o.input, input);
    (o.parsed_as, o.derivative, o.errors)
}

#[test]
fn test_constant_fold() {
    let mut expr = parse_expr("0 + 2 * x");
    Simplify.visit(&mut expr);

    let expected = parse_expr("2 * x");
    assert_eq!(expr, expected);
}

#[test]
fn process_square() {
    let (p, d, e) = run("2 * x ^ 2");
    assert_eq!(p, "(2 * (x ^ 2))");
    assert_eq!(d, "(4 * x)");
    assert!(e.is_empty());
}

#[test]
fn process_variable() {
    let (p, d, _) = run("x");
    assert_eq!(p, "x");
    assert_eq!(d, "1");
}

#[test]
fn process_constant() {
    let (p, d, _) = run("5");
    assert_eq!(p, "5");
    assert_eq!(d, "0");
}

#[test]
fn process_sum_of_equal_terms() {
    let (p, d, _) = run("x + x");
    assert_eq!(p, "(2 * x)");
    assert_eq!(d, "2");
}

#[test]
fn process_reciprocal() {
    let (p, d, _) = run("1 / x");
    assert_eq!(p, "(1 / x)");
    assert_eq!(d, "((-1) / (x ^ 2))");
}

#[test]
fn process_empty_input() {
    assert_eq!(process("").err().unwrap(), "no input found, skipping");
    assert_eq!(process("  \t").err().unwrap(), "no input found, skipping");
}

#[test]
fn process_unknown_operator() {
    let (p, d, e) = run("1 $ 2");
    assert_eq!(p, "1");
    assert_eq!(d, "0");
    assert_eq!(e, vec!["unexpected token".to_string()]);
}

#[test]
fn derivative_of_literal_and_names() {
    assert_eq!(derivative(&parse_expr("5")).to_string(), "0");
    assert_eq!(derivative(&parse_expr("-2.5")).to_string(), "0");
    assert_eq!(derivative(&parse_expr("x")).to_string(), "1");
    assert_eq!(derivative(&parse_expr("y")).to_string(), "0");
}

#[test]
fn derivative_rules_raw() {
    assert_eq!(derivative(&parse_expr("x + y")).to_string(), "(1 + 0)");
    assert_eq!(derivative(&parse_expr("x * y")).to_string(), "((1 * y) + (0 * x))");
    assert_eq!(
        derivative(&parse_expr("x / y")).to_string(),
        "(((1 * y) - (0 * x)) / (y ^ 2))"
    );
    assert_eq!(derivative(&parse_expr("x ^ 3")).to_string(), "((3 * (x ^ (3 - 1))) * 1)");
    assert_eq!(derivative(&parse_expr("-x")).to_string(), "(-1)");
    assert_eq!(derivative(&parse_expr("x - y")).to_string(), "err");
}

#[test]
fn derivative_of_sum_is_sum_of_derivatives() {
    let (_, d, _) = run("x ^ 3 + 2 * x");
    let mut lhs = derivative(&simplified("x ^ 3 + 2 * x"));
    Simplify.visit(&mut lhs);
    let mut rhs = parse_expr("3 * x ^ 2 + 2");
    Simplify.visit(&mut rhs);
    assert_eq!(lhs, rhs);
    assert_eq!(d, "(2 + (3 * (x ^ 2)))");
}

#[test]
fn simplify_twice_is_simplify_once() {
    for s in ["2 * x ^ 2", "(x ^ 2) ^ 3 * 4", "1 / x - 3", "0.5 * x"] {
        let once = simplified(s);
        let mut twice = once.duplicate();
        Simplify.visit(&mut twice);
        assert_eq!(once, twice);
    }
}

#[test]
fn simplify_can_stop_short_of_a_normal_form() {
    // the root is rewritten before its new child folds, and not revisited
    let once = simplified("x + x + x");
    assert_eq!(once.to_string(), "(x * 3)");
    let mut twice = once.duplicate();
    Simplify.visit(&mut twice);
    assert_eq!(twice.to_string(), "(3 * x)");
}

#[test]
fn prettify_simplify_is_stable() {
    for s in ["x ^ -2", "0.5 * x", "2 * x ^ 2", "1 / x"] {
        let mut once = simplified(s);
        Prettify.visit(&mut once);
        Simplify.visit(&mut once);
        let mut again = once.duplicate();
        Prettify.visit(&mut again);
        Simplify.visit(&mut again);
        assert_eq!(once, again);
    }
}

#[test]
fn prettify_shows_negative_powers_and_halves() {
    let mut e = parse_expr("x ^ -2");
    Prettify.visit(&mut e);
    assert_eq!(e.to_string(), "(1 / (x ^ 2))");
    let mut h = parse_expr("0.5");
    Prettify.visit(&mut h);
    assert_eq!(h.to_string(), "(1 / 2)");
}

#[test]
fn folding_is_exact() {
    assert_eq!(simplified("1 / 3").to_string(), "(1 / 3)");
    assert_eq!(simplified("0.1 + 0.2").to_string(), "0.3");
    assert_eq!(simplified("2 ^ 10").to_string(), "1024");
    assert_eq!(simplified("2 ^ -2").to_string(), "0.25");
    assert_eq!(simplified("-2 / 3").to_string(), "((-2) / 3)");
    assert_eq!(simplified("-1 / 4").to_string(), "(-0.25)");
}

#[test]
fn folds_without_exact_value_are_left() {
    assert_eq!(simplified("1 / 0").to_string(), "(1 / 0)");
    assert_eq!(simplified("2 ^ 0.5").to_string(), "(2 ^ 0.5)");
    assert_eq!(simplified("2 ^ 100").to_string(), "(2 ^ 100)");
}

#[test]
fn subtraction_becomes_addition() {
    assert_eq!(simplified("x - 3").to_string(), "((-3) + x)");
    assert_eq!(simplified("x - x").to_string(), "0");
}

#[test]
fn reparse_of_output_gives_same_tree() {
    for s in ["2 * x ^ 2", "-(x + 1)", "1 + 2 * 3", "x ^ -0.5", "a / (b - c)"] {
        let t = parse_expr(s);
        assert_eq!(parse_expr(&t.to_string()), t);
    }
}

#[test]
fn walk_visits_children_only() {
    let mut e = parse_expr("(1 + 2) * (0 + x) + 0");
    walk_expr(&mut e, &mut Simplify);
    assert_eq!(e.to_string(), "((3 * x) + 0)");
}

#[test]
fn reparse_of_decimals_and_negatives() {
    for s in ["0.125 * -x", "-1.5 ^ 2", "--x", "3. + .25", "x / (2 - -0.5)"] {
        let t = parse_expr(s);
        assert_eq!(parse_expr(&t.to_string()), t);
    }
}

#[test]
fn error_nodes_do_not_read_back() {
    let t = parse_expr("1 +");
    assert_eq!(t.to_string(), "(1 + err)");
    assert_ne!(parse_expr(&t.to_string()), t);
}

#[test]
fn shipped_rule_sets_raise_no_cap_warning() {
    for s in ["2 * x ^ 2", "x + x + x", "1 / x", "(x ^ 2) ^ 3 * 4 - 0.5", "x ^ -2 / (3 * x)"] {
        assert!(process(s).unwrap().warnings.is_empty());
    }
}
