use derivative_calculator::lexer::lex;
use derivative_calculator::num::Num;
use derivative_calculator::parser::{BinOpKind, Expr, Parser};
use derivative_calculator::rule::lexer::{rule_lex, RuleToken};
use derivative_calculator::rule::parser::{RuleExpr, RuleParser};
use derivative_calculator::transformations::simplify::simplify_transforms;
use derivative_calculator::transformations::{Handler, RuleTransformSet, TransformOut};

fn parse_expr(s: &str) -> Expr {
    Parser::new(lex(s)).parse()
}

fn expr_matches_rule(expr: &str, rule: &str) -> bool {
    let expr = parse_expr(expr);
    let rule = RuleExpr::new_rule_from_str(rule);
    rule.match_expr(&expr).matches
}

fn rule_transform_expr(expr: &str, rule: &str, out: &str, expected: &str) {
    let expr = parse_expr(expr);
    let rule = RuleExpr::new_rule_from_str(rule);
    let out = RuleExpr::new_rule_from_str(out);
    let expected = parse_expr(expected);

    let match_res = rule.match_expr(&expr);
    assert!(match_res.matches);

    let out_expr = out.write_expr(&match_res.matched_exprs);
    assert_eq!(out_expr, expected);
}

#[test]
fn test_match_expr_any_sub_expr() {
    assert!(expr_matches_rule("0 + x", "0 + _1"));
    assert!(expr_matches_rule("0 + 2 * x", "0 + _1"));
    assert!(!expr_matches_rule("1 + x", "0 + _1"));
    assert!(!expr_matches_rule("(0 + 2) * x", "0 + _1"));
}

#[test]
fn test_match_expr_any_literal() {
    assert!(expr_matches_rule("2 + x", "_lit1 + _2"));
    assert!(!expr_matches_rule("x + x", "_lit1 + _2"));
    assert!(!expr_matches_rule("(2 * x) + x", "_lit1 + _2"));
}

#[test]
fn test_write_expr() {
    rule_transform_expr("0 + x", "0 + _1", "_1", "x");
    rule_transform_expr("x * 20", "_1 * _lit2", "_lit2 * _1", "20 * x");
    rule_transform_expr(
        "(x ^ 2) ^ 3",
        "(_1 ^ _lit2) ^ _lit3",
        "_1 ^ (_lit2 * _lit3)",
        "x ^ (2 * 3)",
    );
    rule_transform_expr("1 / x", "1 / _1", "_1 ^ -1", "x ^ -1");
}

#[test]
fn test_lexer() {
    let tokens = rule_lex("0 + _1");
    assert_eq!(
        tokens,
        vec![RuleToken::Literal(Num::from_i32(0)), RuleToken::Plus, RuleToken::AnySubExpr(1)]
    );

    let tokens = rule_lex("_lit1 + _lit2");
    assert_eq!(
        tokens,
        vec![RuleToken::AnyLiteral(1), RuleToken::Plus, RuleToken::AnyLiteral(2)]
    );
}

#[test]
fn test_parser() {
    let mut parser = RuleParser::new(rule_lex("0 + _1"));
    assert_eq!(
        parser.parse(),
        RuleExpr::Binary {
            left: Box::new(RuleExpr::Literal(Num::from_i32(0))),
            op: BinOpKind::Plus,
            right: Box::new(RuleExpr::AnySubExpr(1))
        }
    );

    let mut parser = RuleParser::new(rule_lex("_lit1 + _lit2"));
    assert_eq!(
        parser.parse(),
        RuleExpr::Binary {
            left: Box::new(RuleExpr::AnyLiteral(1)),
            op: BinOpKind::Plus,
            right: Box::new(RuleExpr::AnyLiteral(2))
        }
    );

    let mut parser = RuleParser::new(rule_lex("(_lit1 + _lit2)"));
    assert_eq!(
        parser.parse(),
        RuleExpr::Binary {
            left: Box::new(RuleExpr::AnyLiteral(1)),
            op: BinOpKind::Plus,
            right: Box::new(RuleExpr::AnyLiteral(2))
        }
    );
}

#[test]
fn rule_lexer_wildcards_and_errors() {
    assert_eq!(
        rule_lex("_nonlit3 ** _12"),
        vec![RuleToken::AnyNonLiteral(3), RuleToken::Exponent, RuleToken::AnySubExpr(12)]
    );
    assert_eq!(rule_lex("_1.5"), vec![RuleToken::Error]);
    assert_eq!(rule_lex("x"), vec![RuleToken::Error]);
    assert_eq!(rule_lex("_lit"), vec![RuleToken::Error, RuleToken::Error, RuleToken::Error, RuleToken::Error]);
}

#[test]
fn repeated_wildcard_needs_equal_parts() {
    assert!(expr_matches_rule("x - x", "_1 - _1"));
    assert!(!expr_matches_rule("x - y", "_1 - _1"));
    assert!(expr_matches_rule("(2 * x) + x", "(_2 * _1) + _1"));
}

#[test]
fn nonliteral_wildcard() {
    assert!(expr_matches_rule("x + 2", "_nonlit1 + _lit2"));
    assert!(!expr_matches_rule("3 + 2", "_nonlit1 + _lit2"));
}

#[test]
fn write_negated_literal_wildcard() {
    rule_transform_expr("x - 3", "_1 - _lit2", "-_lit2 + _1", "-3 + x");
    rule_transform_expr("x ^ -2", "_1 ^ _lit2", "1 / _1 ^ -_lit2", "1 / x ^ 2");
}

#[test]
fn rule_set_with_unbound_template_wildcard_is_refused() {
    assert!(RuleTransformSet::new_from_str(&[("_1 + 0", "_2")], &[]).is_err());
    assert!(RuleTransformSet::new_from_str(&[("_1 + _2", "-_lit2")], &[]).is_err());
    assert!(RuleTransformSet::new_from_str(&[("_1 + _lit2", "-_lit2 + _1")], &[]).is_ok());
}

#[test]
fn custom_rule_set_runs_to_a_fixed_point() {
    let set = RuleTransformSet::new_from_str(
        &[("0 + _1", "_1")],
        &[("_lit1 + _lit2", Handler::FoldAdd)],
    )
    .unwrap();
    let mut e = parse_expr("0 + (2 + 3)");
    set.visit(&mut e);
    assert_eq!(e.to_string(), "5");
    let root = set.apply_rules(&parse_expr("0 + (0 + x)"));
    assert_eq!(root.to_string(), "x");
    let inner = set.apply_rules(&parse_expr("2 * (0 + x)"));
    assert_eq!(inner.to_string(), "(2 * (0 + x))");
}

#[test]
fn writing_a_pattern_with_its_own_match_gives_the_expression_back() {
    for (e, p) in [
        ("(x ^ 2) * y", "(_1 ^ _2) * _3"),
        ("-(a + 3)", "-(_1 + _lit2)"),
        ("x * x", "_1 * _1"),
        ("2 / y", "_lit1 / _nonlit2"),
    ] {
        let expr = parse_expr(e);
        let rule = RuleExpr::new_rule_from_str(p);
        let res = rule.match_expr(&expr);
        assert!(res.matches);
        assert_eq!(rule.write_expr(&res.matched_exprs), expr);
    }
}

#[test]
fn pattern_text() {
    assert_eq!(
        RuleExpr::new_rule_from_str("(_1 ^ _lit2) ^ -_nonlit3").to_string(),
        "((_1 ^ _lit2) ^ (-_nonlit3))"
    );
    assert_eq!(RuleExpr::new_rule_from_str("-2 * _1").to_string(), "((-2) * _1)");
    assert_eq!(RuleExpr::new_rule_from_str("0.5 + x").to_string(), "(0.5 + err)");
}

#[test]
fn oscillating_rule_set_stops_at_the_cap_with_a_warning() {
    let set = RuleTransformSet::new_from_str(&[("_1 + _2", "_2 + _1")], &[]).unwrap();
    let mut warnings = Vec::new();
    let r = set.apply_rules_reporting(&parse_expr("x + y"), &mut warnings);
    assert_eq!(r.to_string(), "(x + y)");
    assert_eq!(warnings, vec!["Exceeded MAX_ITERATIONS_PER_APPLY, exiting immediately".to_string()]);

    let mut quiet = Vec::new();
    let set = RuleTransformSet::new_from_str(&[("0 + _1", "_1")], &[]).unwrap();
    set.apply_rules_reporting(&parse_expr("0 + x"), &mut quiet);
    assert!(quiet.is_empty());
}

#[test]
fn simplify_rules_read_as_their_rule_text() {
    let text = [
        ("0 + _1", "_1"), ("_1 + 0", "_1"), ("0 * _1", "0"), ("_1 * 0", "0"), ("1 * _1", "_1"),
        ("_1 * 1", "_1"), ("_1 / 1", "_1"), ("_1 - _1", "0"), ("_1 + -_1", "0"), ("_1 / _1", "1"),
        ("_1 + _1", "2 * _1"), ("_1 ^ 0", "1"), ("_1 ^ 1", "_1"), ("1 ^ _1", "1"),
        ("(_1 ^ _lit2) ^ _lit3", "_1 ^ (_lit2 * _lit3)"), ("(_1 ^ _2) * (_1 ^ _3)", "_1 ^ (_2 + _3)"),
        ("(_lit1 * _2) / _lit1", "_2"), ("(_lit1 * _2) / _lit3", "(_lit1 / _lit3) * _2"),
        ("(_2 * _1) + _1", "_1 * (_2 + 1)"), ("_lit1 + (_lit2 + _3)", "(_lit1 + _lit2) + _3"),
        ("_lit1 * (_lit2 * _3)", "(_lit1 * _lit2) * _3"), ("_lit1 * (_lit2 / _3)", "(_lit1 * _lit2) / _3"),
        ("_nonlit1 + _lit2", "_lit2 + _nonlit1"), ("_1 - _lit2", "-_lit2 + _1"),
        ("_nonlit1 * _lit2", "_lit2 * _nonlit1"),
    ];
    let folds = [
        ("_lit1 + _lit2", Handler::FoldAdd), ("_lit1 * _lit2", Handler::FoldMultiply),
        ("_lit1 / _lit2", Handler::FoldDivide), ("_lit1 ^ _lit2", Handler::FoldPower),
    ];
    let set = simplify_transforms();
    assert_eq!(set.rules.len(), text.len() + folds.len());
    for (i, (p, o)) in text.iter().enumerate() {
        assert_eq!(set.rules[i].pattern, RuleExpr::new_rule_from_str(p));
        match &set.rules[i].out {
            TransformOut::OutPattern(t) => assert_eq!(*t, RuleExpr::new_rule_from_str(o)),
            TransformOut::OutHandler(_) => panic!("rule {} has a handler", i),
        }
    }
    for (j, (p, h)) in folds.iter().enumerate() {
        let rule = &set.rules[text.len() + j];
        assert_eq!(rule.pattern, RuleExpr::new_rule_from_str(p));
        assert!(matches!(rule.out, TransformOut::OutHandler(k) if k == *h));
    }
}
