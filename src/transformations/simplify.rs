//! Algebraic simplification.

use vstd::prelude::*;
use crate::parser::{texts, Expr, ExprVisitor, Term};
use crate::parser::BinOpKind;
use crate::transformations::{
    any, any_lit, any_nonlit, bin, fire, handler, neg, normal, num, pany, pbin, plit, pneg, pnonlit, pnum, template,
    visit_all, visit_all_keeps_normal, visit_all_warnings, Handler, Rule, RuleOut, RuleTransformSet, Transformation,
};

verus! {

/// The simplification rules, in the order they are tried; the comments
/// give each rule in rule text. Reducing rules
/// (identities, folding) come before the rearranging ones, and literals
/// move to the left of their partner only, so the set does not oscillate.
pub open spec fn simplify_rules() -> Seq<Rule> {
    seq![
        // addition with 0
        // 0 + _1  =>  _1
        (
            pbin(pnum(0), BinOpKind::Plus, pany(1)),
            RuleOut::Template(pany(1)),
        ),
        // _1 + 0  =>  _1
        (
            pbin(pany(1), BinOpKind::Plus, pnum(0)),
            RuleOut::Template(pany(1)),
        ),
        // multiplication with 0
        // 0 * _1  =>  0
        (
            pbin(pnum(0), BinOpKind::Asterisk, pany(1)),
            RuleOut::Template(pnum(0)),
        ),
        // _1 * 0  =>  0
        (
            pbin(pany(1), BinOpKind::Asterisk, pnum(0)),
            RuleOut::Template(pnum(0)),
        ),
        // multiplication with 1
        // 1 * _1  =>  _1
        (
            pbin(pnum(1), BinOpKind::Asterisk, pany(1)),
            RuleOut::Template(pany(1)),
        ),
        // _1 * 1  =>  _1
        (
            pbin(pany(1), BinOpKind::Asterisk, pnum(1)),
            RuleOut::Template(pany(1)),
        ),
        // division by 1
        // _1 / 1  =>  _1
        (
            pbin(pany(1), BinOpKind::Slash, pnum(1)),
            RuleOut::Template(pany(1)),
        ),
        // _1 - _1  =>  0
        (
            pbin(pany(1), BinOpKind::Minus, pany(1)),
            RuleOut::Template(pnum(0)),
        ),
        // _1 + -_1  =>  0
        (
            pbin(pany(1), BinOpKind::Plus, pneg(pany(1))),
            RuleOut::Template(pnum(0)),
        ),
        // _1 / _1  =>  1
        (
            pbin(pany(1), BinOpKind::Slash, pany(1)),
            RuleOut::Template(pnum(1)),
        ),
        // _1 + _1  =>  2 * _1
        (
            pbin(pany(1), BinOpKind::Plus, pany(1)),
            RuleOut::Template(pbin(pnum(2), BinOpKind::Asterisk, pany(1))),
        ),
        // exponent identities
        // _1 ^ 0  =>  1
        (
            pbin(pany(1), BinOpKind::Exponent, pnum(0)),
            RuleOut::Template(pnum(1)),
        ),
        // _1 ^ 1  =>  _1
        (
            pbin(pany(1), BinOpKind::Exponent, pnum(1)),
            RuleOut::Template(pany(1)),
        ),
        // 1 ^ _1  =>  1
        (
            pbin(pnum(1), BinOpKind::Exponent, pany(1)),
            RuleOut::Template(pnum(1)),
        ),
        // (_1 ^ _lit2) ^ _lit3  =>  _1 ^ (_lit2 * _lit3)
        (
            pbin(pbin(pany(1), BinOpKind::Exponent, plit(2)), BinOpKind::Exponent, plit(3)),
            RuleOut::Template(pbin(pany(1), BinOpKind::Exponent, pbin(plit(2), BinOpKind::Asterisk, plit(3)))),
        ),
        // (_1 ^ _2) * (_1 ^ _3)  =>  _1 ^ (_2 + _3)
        (
            pbin(pbin(pany(1), BinOpKind::Exponent, pany(2)), BinOpKind::Asterisk, pbin(pany(1), BinOpKind::Exponent, pany(3))),
            RuleOut::Template(pbin(pany(1), BinOpKind::Exponent, pbin(pany(2), BinOpKind::Plus, pany(3)))),
        ),
        // cancellation and factoring
        // (_lit1 * _2) / _lit1  =>  _2
        (
            pbin(pbin(plit(1), BinOpKind::Asterisk, pany(2)), BinOpKind::Slash, plit(1)),
            RuleOut::Template(pany(2)),
        ),
        // (_lit1 * _2) / _lit3  =>  (_lit1 / _lit3) * _2
        (
            pbin(pbin(plit(1), BinOpKind::Asterisk, pany(2)), BinOpKind::Slash, plit(3)),
            RuleOut::Template(pbin(pbin(plit(1), BinOpKind::Slash, plit(3)), BinOpKind::Asterisk, pany(2))),
        ),
        // (_2 * _1) + _1  =>  _1 * (_2 + 1)
        (
            pbin(pbin(pany(2), BinOpKind::Asterisk, pany(1)), BinOpKind::Plus, pany(1)),
            RuleOut::Template(pbin(pany(1), BinOpKind::Asterisk, pbin(pany(2), BinOpKind::Plus, pnum(1)))),
        ),
        // regrouping to bring literals together, e.g. 2 * (3 * x) => 6 * x
        // _lit1 + (_lit2 + _3)  =>  (_lit1 + _lit2) + _3
        (
            pbin(plit(1), BinOpKind::Plus, pbin(plit(2), BinOpKind::Plus, pany(3))),
            RuleOut::Template(pbin(pbin(plit(1), BinOpKind::Plus, plit(2)), BinOpKind::Plus, pany(3))),
        ),
        // _lit1 * (_lit2 * _3)  =>  (_lit1 * _lit2) * _3
        (
            pbin(plit(1), BinOpKind::Asterisk, pbin(plit(2), BinOpKind::Asterisk, pany(3))),
            RuleOut::Template(pbin(pbin(plit(1), BinOpKind::Asterisk, plit(2)), BinOpKind::Asterisk, pany(3))),
        ),
        // _lit1 * (_lit2 / _3)  =>  (_lit1 * _lit2) / _3
        (
            pbin(plit(1), BinOpKind::Asterisk, pbin(plit(2), BinOpKind::Slash, pany(3))),
            RuleOut::Template(pbin(pbin(plit(1), BinOpKind::Asterisk, plit(2)), BinOpKind::Slash, pany(3))),
        ),
        // literals to the left, subtraction as addition
        // _nonlit1 + _lit2  =>  _lit2 + _nonlit1
        (
            pbin(pnonlit(1), BinOpKind::Plus, plit(2)),
            RuleOut::Template(pbin(plit(2), BinOpKind::Plus, pnonlit(1))),
        ),
        // _1 - _lit2  =>  -_lit2 + _1
        (
            pbin(pany(1), BinOpKind::Minus, plit(2)),
            RuleOut::Template(pbin(pneg(plit(2)), BinOpKind::Plus, pany(1))),
        ),
        // _nonlit1 * _lit2  =>  _lit2 * _nonlit1
        (
            pbin(pnonlit(1), BinOpKind::Asterisk, plit(2)),
            RuleOut::Template(pbin(plit(2), BinOpKind::Asterisk, pnonlit(1))),
        ),
        // folding of literal arithmetic
        (pbin(plit(1), BinOpKind::Plus, plit(2)), RuleOut::Handler(Handler::FoldAdd)),
        (pbin(plit(1), BinOpKind::Asterisk, plit(2)), RuleOut::Handler(Handler::FoldMultiply)),
        (pbin(plit(1), BinOpKind::Slash, plit(2)), RuleOut::Handler(Handler::FoldDivide)),
        (pbin(plit(1), BinOpKind::Exponent, plit(2)), RuleOut::Handler(Handler::FoldPower)),
    ]
}

/// The simplification of a term: the rules applied at every node.
pub open spec fn simplify(t: Term) -> Term {
    visit_all(simplify_rules(), t)
}

/// Simplifying twice is simplifying once, wherever one simplification
/// reaches a term that no simplification rule applies to at any node.
pub proof fn simplify_idempotent(t: Term)
    requires
        normal(simplify_rules(), simplify(t)),
    ensures
        simplify(simplify(t)) == simplify(t),
{
    visit_all_keeps_normal(simplify_rules(), simplify(t));
}

/// The warnings of a simplify: one for each node where the iteration cap
/// stopped the rules.
pub open spec fn simplify_warnings(t: Term) -> Seq<Seq<char>> {
    visit_all_warnings(simplify_rules(), t)
}

/// Every simplification rule has a binary pattern, so simplification
/// leaves a literal as it is.
pub proof fn simplify_keeps_literal(v: (int, int))
    ensures
        simplify(Term::Literal(v)) == Term::Literal(v),
{
    let rules = simplify_rules();
    assert forall|i: int| 0 <= i < rules.len() implies #[trigger] fire(rules[i], Term::Literal(v)) is None by {
        assert(rules[i].0 is Binary);
    }
    visit_all_keeps_normal(rules, Term::Literal(v));
}

pub fn simplify_transforms() -> (r: RuleTransformSet)
    ensures
        r@ == simplify_rules(),
{
    let mut rules: Vec<Transformation> = Vec::new();
    // 0 + _1  =>  _1
    rules.push(template(bin(num(0), BinOpKind::Plus, any(1)), any(1)));
    // _1 + 0  =>  _1
    rules.push(template(bin(any(1), BinOpKind::Plus, num(0)), any(1)));
    // 0 * _1  =>  0
    rules.push(template(bin(num(0), BinOpKind::Asterisk, any(1)), num(0)));
    // _1 * 0  =>  0
    rules.push(template(bin(any(1), BinOpKind::Asterisk, num(0)), num(0)));
    // 1 * _1  =>  _1
    rules.push(template(bin(num(1), BinOpKind::Asterisk, any(1)), any(1)));
    // _1 * 1  =>  _1
    rules.push(template(bin(any(1), BinOpKind::Asterisk, num(1)), any(1)));
    // _1 / 1  =>  _1
    rules.push(template(bin(any(1), BinOpKind::Slash, num(1)), any(1)));
    // _1 - _1  =>  0
    rules.push(template(bin(any(1), BinOpKind::Minus, any(1)), num(0)));
    // _1 + -_1  =>  0
    rules.push(template(bin(any(1), BinOpKind::Plus, neg(any(1))), num(0)));
    // _1 / _1  =>  1
    rules.push(template(bin(any(1), BinOpKind::Slash, any(1)), num(1)));
    // _1 + _1  =>  2 * _1
    rules.push(template(bin(any(1), BinOpKind::Plus, any(1)), bin(num(2), BinOpKind::Asterisk, any(1))));
    // _1 ^ 0  =>  1
    rules.push(template(bin(any(1), BinOpKind::Exponent, num(0)), num(1)));
    // _1 ^ 1  =>  _1
    rules.push(template(bin(any(1), BinOpKind::Exponent, num(1)), any(1)));
    // 1 ^ _1  =>  1
    rules.push(template(bin(num(1), BinOpKind::Exponent, any(1)), num(1)));
    // (_1 ^ _lit2) ^ _lit3  =>  _1 ^ (_lit2 * _lit3)
    rules.push(template(bin(bin(any(1), BinOpKind::Exponent, any_lit(2)), BinOpKind::Exponent, any_lit(3)), bin(any(1), BinOpKind::Exponent, bin(any_lit(2), BinOpKind::Asterisk, any_lit(3)))));
    // (_1 ^ _2) * (_1 ^ _3)  =>  _1 ^ (_2 + _3)
    rules.push(template(bin(bin(any(1), BinOpKind::Exponent, any(2)), BinOpKind::Asterisk, bin(any(1), BinOpKind::Exponent, any(3))), bin(any(1), BinOpKind::Exponent, bin(any(2), BinOpKind::Plus, any(3)))));
    // (_lit1 * _2) / _lit1  =>  _2
    rules.push(template(bin(bin(any_lit(1), BinOpKind::Asterisk, any(2)), BinOpKind::Slash, any_lit(1)), any(2)));
    // (_lit1 * _2) / _lit3  =>  (_lit1 / _lit3) * _2
    rules.push(template(bin(bin(any_lit(1), BinOpKind::Asterisk, any(2)), BinOpKind::Slash, any_lit(3)), bin(bin(any_lit(1), BinOpKind::Slash, any_lit(3)), BinOpKind::Asterisk, any(2))));
    // (_2 * _1) + _1  =>  _1 * (_2 + 1)
    rules.push(template(bin(bin(any(2), BinOpKind::Asterisk, any(1)), BinOpKind::Plus, any(1)), bin(any(1), BinOpKind::Asterisk, bin(any(2), BinOpKind::Plus, num(1)))));
    // _lit1 + (_lit2 + _3)  =>  (_lit1 + _lit2) + _3
    rules.push(template(bin(any_lit(1), BinOpKind::Plus, bin(any_lit(2), BinOpKind::Plus, any(3))), bin(bin(any_lit(1), BinOpKind::Plus, any_lit(2)), BinOpKind::Plus, any(3))));
    // _lit1 * (_lit2 * _3)  =>  (_lit1 * _lit2) * _3
    rules.push(template(bin(any_lit(1), BinOpKind::Asterisk, bin(any_lit(2), BinOpKind::Asterisk, any(3))), bin(bin(any_lit(1), BinOpKind::Asterisk, any_lit(2)), BinOpKind::Asterisk, any(3))));
    // _lit1 * (_lit2 / _3)  =>  (_lit1 * _lit2) / _3
    rules.push(template(bin(any_lit(1), BinOpKind::Asterisk, bin(any_lit(2), BinOpKind::Slash, any(3))), bin(bin(any_lit(1), BinOpKind::Asterisk, any_lit(2)), BinOpKind::Slash, any(3))));
    // _nonlit1 + _lit2  =>  _lit2 + _nonlit1
    rules.push(template(bin(any_nonlit(1), BinOpKind::Plus, any_lit(2)), bin(any_lit(2), BinOpKind::Plus, any_nonlit(1))));
    // _1 - _lit2  =>  -_lit2 + _1
    rules.push(template(bin(any(1), BinOpKind::Minus, any_lit(2)), bin(neg(any_lit(2)), BinOpKind::Plus, any(1))));
    // _nonlit1 * _lit2  =>  _lit2 * _nonlit1
    rules.push(template(bin(any_nonlit(1), BinOpKind::Asterisk, any_lit(2)), bin(any_lit(2), BinOpKind::Asterisk, any_nonlit(1))));
    rules.push(handler(bin(any_lit(1), BinOpKind::Plus, any_lit(2)), Handler::FoldAdd));
    rules.push(handler(bin(any_lit(1), BinOpKind::Asterisk, any_lit(2)), Handler::FoldMultiply));
    rules.push(handler(bin(any_lit(1), BinOpKind::Slash, any_lit(2)), Handler::FoldDivide));
    rules.push(handler(bin(any_lit(1), BinOpKind::Exponent, any_lit(2)), Handler::FoldPower));
    let r = RuleTransformSet { rules };
    proof {
        assert(r@ =~= simplify_rules());
    }
    r
}

/// Simplifies expressions.
pub struct Simplify;

impl ExprVisitor for Simplify {
    open spec fn transform(&self, t: Term) -> Term {
        simplify(t)
    }

    /// Simplifies `expr` in place (see `simplify`).
    fn visit(&mut self, expr: &mut Expr) {
        let rules = simplify_transforms();
        rules.visit(expr);
    }
}

impl Simplify {
    /// As `visit`, adding to `warnings` the warnings of the rewrite (see
    /// `simplify_warnings`).
    pub fn visit_reporting(&mut self, expr: &mut Expr, warnings: &mut Vec<String>)
        ensures
            final(expr)@ == simplify(old(expr)@),
            texts(final(warnings)@) == texts(old(warnings)@) + simplify_warnings(old(expr)@),
    {
        let rules = simplify_transforms();
        rules.visit_reporting(expr, warnings);
    }
}

} // verus!
