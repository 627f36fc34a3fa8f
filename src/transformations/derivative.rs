//! Differentiation with respect to `x`, by an ordered rule set applied
//! once at the root and recursively, through its handlers, on the parts.

use vstd::prelude::*;
use crate::num::Num;
use crate::parser::{size, BinOpKind, Expr, Term, UnaryOpKind};
use crate::rule::parser::{Pat, RuleExpr};
use crate::rule::{bindings_view, bound_or_error, find_binding, lookup, match_bindings, writable, write_pat, Bindings};
use crate::transformations::is_writable;
use crate::transformations::simplify::{simplify, simplify_keeps_literal};
use vstd::string::StringExecFns;

verus! {

pub open spec fn lit(n: int) -> Term {
    Term::Literal((n, 1))
}

pub open spec fn bin(l: Term, op: BinOpKind, r: Term) -> Term {
    Term::Binary(Box::new(l), op, Box::new(r))
}

/// The derivative of a term with respect to `x`, by the shape of the term.
/// Every name but `x` is a constant. The power rule `b * a ^ (b - 1) * a'`
/// is exact only for an exponent that does not depend on `x`. Shapes
/// without a rule (a difference, a unary `+`, an error) give `Error`.
pub open spec fn deriv(t: Term) -> Term
    decreases t,
{
    match t {
        Term::Literal(_) => lit(0),
        Term::Identifier(s) => if s == seq!['x'] {
            lit(1)
        } else {
            lit(0)
        },
        Term::Unary(op, a) => if op == UnaryOpKind::Minus {
            Term::Unary(UnaryOpKind::Minus, Box::new(deriv(*a)))
        } else {
            Term::Error
        },
        Term::Binary(a, op, b) => match op {
            BinOpKind::Plus => bin(deriv(*a), BinOpKind::Plus, deriv(*b)),
            BinOpKind::Asterisk => bin(
                bin(deriv(*a), BinOpKind::Asterisk, *b),
                BinOpKind::Plus,
                bin(deriv(*b), BinOpKind::Asterisk, *a),
            ),
            BinOpKind::Slash => bin(
                bin(
                    bin(deriv(*a), BinOpKind::Asterisk, *b),
                    BinOpKind::Minus,
                    bin(deriv(*b), BinOpKind::Asterisk, *a),
                ),
                BinOpKind::Slash,
                bin(*b, BinOpKind::Exponent, lit(2)),
            ),
            BinOpKind::Exponent => bin(
                bin(*b, BinOpKind::Asterisk, bin(*a, BinOpKind::Exponent, bin(*b, BinOpKind::Minus, lit(1)))),
                BinOpKind::Asterisk,
                deriv(*a),
            ),
            BinOpKind::Minus => Term::Error,
        },
        Term::Error => Term::Error,
    }
}

/// Computed outputs of the derivative rules.
#[derive(Debug, Clone, Copy, PartialEq, Eq, Structural)]
pub enum DerivHandler {
    /// `_1`: `1` for `x`, `0` for any other name; declines anything else.
    Variable,
    /// `-_1`: `-d(_1)`.
    Negation,
    /// `_1 + _2`: `d(_1) + d(_2)`.
    Sum,
    /// `_1 * _2`: `d(_1) * _2 + d(_2) * _1`.
    Product,
    /// `_1 / _2`: `(d(_1) * _2 - d(_2) * _1) / _2 ^ 2`.
    Quotient,
    /// `_1 ^ _2`: `_2 * _1 ^ (_2 - 1) * d(_1)`.
    Power,
    /// `_1`: `Error`, for the shapes without a rule.
    Unsupported,
}

pub enum DerivOut {
    OutPattern(RuleExpr),
    OutHandler(DerivHandler),
}

pub enum DerivOutView {
    Template(Pat),
    Handler(DerivHandler),
}

/// A derivative rule: a pattern and what replaces its match.
pub struct DerivRule {
    pub pattern: RuleExpr,
    pub out: DerivOut,
}

pub type DRule = (Pat, DerivOutView);

impl View for DerivRule {
    type V = DRule;

    open spec fn view(&self) -> DRule {
        (
            self.pattern@,
            match self.out {
                DerivOut::OutPattern(p) => DerivOutView::Template(p@),
                DerivOut::OutHandler(h) => DerivOutView::Handler(h),
            },
        )
    }
}

pub open spec fn any(id: int) -> Pat {
    Pat::AnySubExpr(id)
}

pub open spec fn bin_pat(op: BinOpKind) -> Pat {
    Pat::Binary(Box::new(any(1)), op, Box::new(any(2)))
}

/// The derivative rules, in order: `_lit1 → 0`, then the handlers on `_1`,
/// `-_1`, `_1 + _2`, `_1 * _2`, `_1 / _2`, `_1 ^ _2`, and the catch-all `_1`.
pub open spec fn deriv_rules() -> Seq<DRule> {
    seq![
        (Pat::AnyLiteral(1), DerivOutView::Template(Pat::Literal((0, 1)))),
        (any(1), DerivOutView::Handler(DerivHandler::Variable)),
        (Pat::Unary(UnaryOpKind::Minus, Box::new(any(1))), DerivOutView::Handler(DerivHandler::Negation)),
        (bin_pat(BinOpKind::Plus), DerivOutView::Handler(DerivHandler::Sum)),
        (bin_pat(BinOpKind::Asterisk), DerivOutView::Handler(DerivHandler::Product)),
        (bin_pat(BinOpKind::Slash), DerivOutView::Handler(DerivHandler::Quotient)),
        (bin_pat(BinOpKind::Exponent), DerivOutView::Handler(DerivHandler::Power)),
        (any(1), DerivOutView::Handler(DerivHandler::Unsupported)),
    ]
}

/// What a derivative handler gives for the bindings of its match.
pub open spec fn deriv_handler_out(h: DerivHandler, bs: Bindings) -> Option<Term> {
    let a = bound_or_error(bs, 1);
    let b = bound_or_error(bs, 2);
    match h {
        DerivHandler::Variable => match a {
            Term::Identifier(s) => Some(
                if s == seq!['x'] {
                    lit(1)
                } else {
                    lit(0)
                },
            ),
            _ => None,
        },
        DerivHandler::Negation => Some(Term::Unary(UnaryOpKind::Minus, Box::new(deriv(a)))),
        DerivHandler::Sum => Some(bin(deriv(a), BinOpKind::Plus, deriv(b))),
        DerivHandler::Product => Some(
            bin(bin(deriv(a), BinOpKind::Asterisk, b), BinOpKind::Plus, bin(deriv(b), BinOpKind::Asterisk, a)),
        ),
        DerivHandler::Quotient => Some(
            bin(
                bin(
                    bin(deriv(a), BinOpKind::Asterisk, b),
                    BinOpKind::Minus,
                    bin(deriv(b), BinOpKind::Asterisk, a),
                ),
                BinOpKind::Slash,
                bin(b, BinOpKind::Exponent, lit(2)),
            ),
        ),
        DerivHandler::Power => Some(
            bin(
                bin(b, BinOpKind::Asterisk, bin(a, BinOpKind::Exponent, bin(b, BinOpKind::Minus, lit(1)))),
                BinOpKind::Asterisk,
                deriv(a),
            ),
        ),
        DerivHandler::Unsupported => Some(Term::Error),
    }
}

pub open spec fn deriv_fire(r: DRule, e: Term) -> Option<Term> {
    match match_bindings(r.0, e) {
        None => None,
        Some(bs) => match r.1 {
            DerivOutView::Template(t) => if writable(t, bs) {
                Some(write_pat(t, bs))
            } else {
                None
            },
            DerivOutView::Handler(h) => deriv_handler_out(h, bs),
        },
    }
}

/// The output of the first rule from index `i` on that fires.
pub open spec fn first_fire(rules: Seq<DRule>, i: int, e: Term) -> Option<Term>
    decreases rules.len() - i,
{
    if i < 0 || i >= rules.len() {
        None
    } else {
        match deriv_fire(rules[i], e) {
            Some(t) => Some(t),
            None => first_fire(rules, i + 1, e),
        }
    }
}

/// What each derivative pattern binds on `e`.
proof fn lemma_deriv_matches(e: Term)
    ensures
        match_bindings(Pat::AnyLiteral(1), e) == (if e is Literal {
            Some(seq![(1int, e)])
        } else {
            None
        }),
        match_bindings(any(1), e) == Some(seq![(1int, e)]),
        match_bindings(Pat::Unary(UnaryOpKind::Minus, Box::new(any(1))), e) == (match e {
            Term::Unary(op, a) => if op == UnaryOpKind::Minus {
                Some(seq![(1int, *a)])
            } else {
                None
            },
            _ => None,
        }),
        forall|op: BinOpKind|
            match_bindings(#[trigger] bin_pat(op), e) == (match e {
                Term::Binary(a, eop, b) => if op == eop {
                    Some(seq![(1int, *a), (2int, *b)])
                } else {
                    None
                },
                _ => None,
            }),
{
    reveal_with_fuel(lookup, 3);
    reveal_with_fuel(crate::rule::match_pat, 2);
    let empty: Bindings = seq![];
    assert(empty.push((1int, e)) =~= seq![(1int, e)]);
    match e {
        Term::Unary(op, a) => {
            assert(empty.push((1int, *a)) =~= seq![(1int, *a)]);
        },
        Term::Binary(a, eop, b) => {
            let one = empty.push((1int, *a));
            assert(one =~= seq![(1int, *a)]);
            assert(one.drop_first() =~= empty);
            assert(one.push((2int, *b)) =~= seq![(1int, *a), (2int, *b)]);
        },
        _ => {},
    }
}

/// The rule set and the shape-wise definition agree: its first rule that
/// fires on `e` gives `deriv(e)`.
pub proof fn lemma_rules_give_deriv(e: Term)
    ensures
        first_fire(deriv_rules(), 0, e) == Some(deriv(e)),
{
    lemma_deriv_matches(e);
    reveal_with_fuel(first_fire, 9);
    reveal_with_fuel(lookup, 3);
    let rules = deriv_rules();
    let b1: Bindings = seq![(1int, e)];
    assert(bound_or_error(b1, 1) == e);
    match e {
        Term::Binary(a, op, b) => {
            let b2: Bindings = seq![(1int, *a), (2int, *b)];
            assert(b2.drop_first() =~= seq![(2int, *b)]);
            assert(bound_or_error(b2, 1) == *a);
            assert(bound_or_error(b2, 2) == *b);
            assert(match_bindings(rules[3].0, e) == match_bindings(bin_pat(BinOpKind::Plus), e));
            assert(match_bindings(rules[4].0, e) == match_bindings(bin_pat(BinOpKind::Asterisk), e));
            assert(match_bindings(rules[5].0, e) == match_bindings(bin_pat(BinOpKind::Slash), e));
            assert(match_bindings(rules[6].0, e) == match_bindings(bin_pat(BinOpKind::Exponent), e));
        },
        Term::Unary(op, a) => {
            let b2: Bindings = seq![(1int, *a)];
            assert(bound_or_error(b2, 1) == *a);
            assert(match_bindings(rules[3].0, e) == match_bindings(bin_pat(BinOpKind::Plus), e));
            assert(match_bindings(rules[4].0, e) == match_bindings(bin_pat(BinOpKind::Asterisk), e));
            assert(match_bindings(rules[5].0, e) == match_bindings(bin_pat(BinOpKind::Slash), e));
            assert(match_bindings(rules[6].0, e) == match_bindings(bin_pat(BinOpKind::Exponent), e));
        },
        _ => {
            assert(match_bindings(rules[3].0, e) == match_bindings(bin_pat(BinOpKind::Plus), e));
            assert(match_bindings(rules[4].0, e) == match_bindings(bin_pat(BinOpKind::Asterisk), e));
            assert(match_bindings(rules[5].0, e) == match_bindings(bin_pat(BinOpKind::Slash), e));
            assert(match_bindings(rules[6].0, e) == match_bindings(bin_pat(BinOpKind::Exponent), e));
        },
    }
}


/// The derivative of a sum is the sum of the derivatives, and so stays
/// after simplification.
pub proof fn derivative_of_sum(x: Term, y: Term)
    ensures
        deriv(bin(x, BinOpKind::Plus, y)) == bin(deriv(x), BinOpKind::Plus, deriv(y)),
        simplify(deriv(bin(x, BinOpKind::Plus, y))) == simplify(bin(deriv(x), BinOpKind::Plus, deriv(y))),
{
}

/// The derivative of every literal is `0`, and simplifying keeps it so.
pub proof fn derivative_of_literal(v: (int, int))
    ensures
        deriv(Term::Literal(v)) == lit(0),
        simplify(deriv(Term::Literal(v))) == lit(0),
{
    simplify_keeps_literal((0, 1));
}

/// The derivative of `x` is `1`, that of every other name `0`, and
/// simplifying keeps them so.
pub proof fn derivative_of_name(s: Seq<char>)
    ensures
        s == seq!['x'] ==> deriv(Term::Identifier(s)) == lit(1),
        s != seq!['x'] ==> deriv(Term::Identifier(s)) == lit(0),
        s == seq!['x'] ==> simplify(deriv(Term::Identifier(s))) == lit(1),
        s != seq!['x'] ==> simplify(deriv(Term::Identifier(s))) == lit(0),
{
    simplify_keeps_literal((0, 1));
    simplify_keeps_literal((1, 1));
}

pub open spec fn recurses(h: DerivHandler) -> bool {
    !(h is Variable || h is Unsupported)
}

/// Every term bound in `bs` is smaller than `src`.
pub open spec fn bound_below(bs: Bindings, src: Term) -> bool {
    forall|k: int| #[trigger] lookup(bs, k) is Some ==> size(lookup(bs, k)->0) < size(src)
}

proof fn lemma_recursive_rules_bind_parts(i: int, e: Term)
    requires
        0 <= i < 8,
        match_bindings(deriv_rules()[i].0, e) is Some,
        deriv_rules()[i].1 matches DerivOutView::Handler(h) && recurses(h),
    ensures
        bound_below(match_bindings(deriv_rules()[i].0, e)->0, e),
{
    lemma_deriv_matches(e);
    reveal_with_fuel(lookup, 3);
    let rules = deriv_rules();
    assert(2 <= i <= 6);
    if i >= 3 {
        assert(match_bindings(rules[3].0, e) == match_bindings(bin_pat(BinOpKind::Plus), e));
        assert(match_bindings(rules[4].0, e) == match_bindings(bin_pat(BinOpKind::Asterisk), e));
        assert(match_bindings(rules[5].0, e) == match_bindings(bin_pat(BinOpKind::Slash), e));
        assert(match_bindings(rules[6].0, e) == match_bindings(bin_pat(BinOpKind::Exponent), e));
        if let Term::Binary(a, op, b) = e {
            let bs: Bindings = seq![(1int, *a), (2int, *b)];
            assert(bs.drop_first() =~= seq![(2int, *b)]);
            assert(bs.drop_first().drop_first() =~= Seq::<(int, Term)>::empty());
            assert forall|k: int| #[trigger] lookup(bs, k) is Some implies size(lookup(bs, k)->0) < size(e) by {
                if k != 1 && k != 2 {
                    assert(lookup(bs, k) is None);
                }
            }
        }
    } else {
        if let Term::Unary(op, a) = e {
            let bs: Bindings = seq![(1int, *a)];
            assert(bs.drop_first() =~= Seq::<(int, Term)>::empty());
            assert forall|k: int| #[trigger] lookup(bs, k) is Some implies size(lookup(bs, k)->0) < size(e) by {
                if k != 1 {
                    assert(lookup(bs, k) is None);
                }
            }
        }
    }
}

fn bin_expr(l: Expr, op: BinOpKind, r: Expr) -> (e: Expr)
    ensures
        e@ == bin(l@, op, r@),
{
    Expr::Binary { left: Box::new(l), op, right: Box::new(r) }
}

fn int_literal(n: i32) -> (e: Expr)
    ensures
        e@ == lit(n as int),
{
    Expr::Literal(Num::from_i32(n))
}

fn copy_or_error(b: Option<&Expr>) -> (e: Expr)
    ensures
        e@ == match b {
            Some(x) => x@,
            None => Term::Error,
        },
{
    match b {
        Some(x) => x.duplicate(),
        None => Expr::Error,
    }
}

/// Runs a derivative handler on the bindings of a match of `src`.
fn deriv_handler(h: DerivHandler, bs: &Vec<(i32, Expr)>, Ghost(src): Ghost<Term>) -> (r: Option<Expr>)
    requires
        recurses(h) ==> bound_below(bindings_view(bs@), src),
    ensures
        match r {
            Some(e) => deriv_handler_out(h, bindings_view(bs@)) == Some(e@),
            None => deriv_handler_out(h, bindings_view(bs@)) is None,
        },
    decreases size(src), 0int,
{
    let ghost view = bindings_view(bs@);
    let a_ref = find_binding(bs, 1);
    let b_ref = find_binding(bs, 2);
    match h {
        DerivHandler::Variable => match a_ref {
            Some(Expr::Identifier(s)) => {
                proof {
                    reveal_strlit("x");
                    assert("x"@ =~= seq!['x']);
                }
                let x = String::from_str("x");
                if *s == x {
                    Some(int_literal(1))
                } else {
                    Some(int_literal(0))
                }
            },
            _ => None,
        },
        DerivHandler::Unsupported => Some(Expr::Error),
        _ => {
            let a = copy_or_error(a_ref);
            let b = copy_or_error(b_ref);
            let da = match a_ref {
                Some(x) => derivative(x),
                None => Expr::Error,
            };
            assert(da@ == deriv(a@));
            let r = match h {
                DerivHandler::Negation => Expr::Unary { op: UnaryOpKind::Minus, right: Box::new(da) },
                DerivHandler::Power => {
                    let b2 = b.duplicate();
                    let one = int_literal(1);
                    bin_expr(
                        bin_expr(b, BinOpKind::Asterisk, bin_expr(a, BinOpKind::Exponent, bin_expr(b2, BinOpKind::Minus, one))),
                        BinOpKind::Asterisk,
                        da,
                    )
                },
                _ => {
                    let db = match b_ref {
                        Some(x) => derivative(x),
                        None => Expr::Error,
                    };
                    assert(db@ == deriv(b@));
                    match h {
                        DerivHandler::Sum => bin_expr(da, BinOpKind::Plus, db),
                        DerivHandler::Product => bin_expr(
                            bin_expr(da, BinOpKind::Asterisk, b),
                            BinOpKind::Plus,
                            bin_expr(db, BinOpKind::Asterisk, a),
                        ),
                        _ => {
                            let b2 = b.duplicate();
                            bin_expr(
                                bin_expr(
                                    bin_expr(da, BinOpKind::Asterisk, b),
                                    BinOpKind::Minus,
                                    bin_expr(db, BinOpKind::Asterisk, a),
                                ),
                                BinOpKind::Slash,
                                bin_expr(b2, BinOpKind::Exponent, int_literal(2)),
                            )
                        },
                    }
                },
            };
            Some(r)
        },
    }
}

/// The derivative rules (see `deriv_rules`).
pub fn derivative_transforms() -> (r: Vec<DerivRule>)
    ensures
        r@.map_values(|d: DerivRule| d@) == deriv_rules(),
{
    let mut rules: Vec<DerivRule> = Vec::new();
    rules.push(DerivRule {
        pattern: RuleExpr::AnyLiteral(1),
        out: DerivOut::OutPattern(RuleExpr::Literal(Num::from_i32(0))),
    });
    rules.push(DerivRule { pattern: RuleExpr::AnySubExpr(1), out: DerivOut::OutHandler(DerivHandler::Variable) });
    rules.push(DerivRule {
        pattern: RuleExpr::Unary { op: UnaryOpKind::Minus, right: Box::new(RuleExpr::AnySubExpr(1)) },
        out: DerivOut::OutHandler(DerivHandler::Negation),
    });
    rules.push(DerivRule { pattern: binary_rule(BinOpKind::Plus), out: DerivOut::OutHandler(DerivHandler::Sum) });
    rules.push(DerivRule {
        pattern: binary_rule(BinOpKind::Asterisk),
        out: DerivOut::OutHandler(DerivHandler::Product),
    });
    rules.push(DerivRule {
        pattern: binary_rule(BinOpKind::Slash),
        out: DerivOut::OutHandler(DerivHandler::Quotient),
    });
    rules.push(DerivRule {
        pattern: binary_rule(BinOpKind::Exponent),
        out: DerivOut::OutHandler(DerivHandler::Power),
    });
    rules.push(DerivRule {
        pattern: RuleExpr::AnySubExpr(1),
        out: DerivOut::OutHandler(DerivHandler::Unsupported),
    });
    proof {
        reveal_with_fuel(crate::rule::parser::pat_of, 2);
        assert(rules@.map_values(|d: DerivRule| d@) =~= deriv_rules());
    }
    rules
}

fn binary_rule(op: BinOpKind) -> (r: RuleExpr)
    ensures
        r@ == bin_pat(op),
{
    proof {
        reveal_with_fuel(crate::rule::parser::pat_of, 2);
    }
    RuleExpr::Binary { left: Box::new(RuleExpr::AnySubExpr(1)), op, right: Box::new(RuleExpr::AnySubExpr(2)) }
}

/// The derivative of `expr` with respect to `x` (see `deriv`): the first
/// derivative rule that fires at the root gives it.
pub fn derivative(expr: &Expr) -> (r: Expr)
    ensures
        r@ == deriv(expr@),
    decreases size(expr@), 1int,
{
    let rules = derivative_transforms();
    let ghost rv = rules@.map_values(|d: DerivRule| d@);
    proof {
        lemma_rules_give_deriv(expr@);
    }
    let mut i: usize = 0;
    while i < rules.len()
        invariant
            rv == rules@.map_values(|d: DerivRule| d@),
            rv == deriv_rules(),
            i <= rules@.len(),
            first_fire(rv, i as int, expr@) == Some(deriv(expr@)),
        decreases rules@.len() - i,
    {
        assert(rules@[i as int]@ == rv[i as int]);
        let res = rules[i].pattern.match_expr(expr);
        if res.matches {
            match &rules[i].out {
                DerivOut::OutPattern(t) => {
                    if is_writable(t, &res.matched_exprs) {
                        return t.write_expr(&res.matched_exprs);
                    }
                },
                DerivOut::OutHandler(h) => {
                    proof {
                        if recurses(*h) {
                            lemma_recursive_rules_bind_parts(i as int, expr@);
                        }
                    }
                    match deriv_handler(*h, &res.matched_exprs, Ghost(expr@)) {
                        Some(r) => return r,
                        None => {},
                    }
                },
            }
        }
        i = i + 1;
    }
    Expr::Error
}

} // verus!
