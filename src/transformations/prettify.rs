//! Makes an expression more readable. For best results, simplify the
//! expression before and after.

use vstd::prelude::*;
use crate::parser::{texts, Expr, ExprVisitor, Term};
use crate::transformations::{
    handler_rule, template_rule, visit_all, visit_all_warnings, Handler, Rule, RuleTransformSet,
};

verus! {

/// The display rules: a half as a division, a negative exponent as a
/// division by the positive power.
pub open spec fn prettify_rules() -> Seq<Rule> {
    seq![
        template_rule("0.5"@, "1 / 2"@),
        handler_rule("_1 ^ _lit2"@, Handler::NegativeExponent),
    ]
}

pub open spec fn prettify(t: Term) -> Term {
    visit_all(prettify_rules(), t)
}

/// The warnings of a prettify: one for each node where the iteration cap
/// stopped the rules.
pub open spec fn prettify_warnings(t: Term) -> Seq<Seq<char>> {
    visit_all_warnings(prettify_rules(), t)
}

pub fn prettify_transforms() -> (r: RuleTransformSet)
    ensures
        r@ == prettify_rules(),
{
    let r = RuleTransformSet::from_rule_text(
        &[("0.5", "1 / 2")],
        &[("_1 ^ _lit2", Handler::NegativeExponent)],
    );
    proof {
        assert(r@ =~= prettify_rules());
    }
    r
}

/// Prettifies expressions.
pub struct Prettify;

impl ExprVisitor for Prettify {
    open spec fn transform(&self, t: Term) -> Term {
        prettify(t)
    }

    /// Prettifies `expr` in place (see `prettify`).
    fn visit(&mut self, expr: &mut Expr) {
        let rules = prettify_transforms();
        rules.visit(expr);
    }
}

impl Prettify {
    /// As `visit`, adding to `warnings` the warnings of the rewrite (see
    /// `prettify_warnings`).
    pub fn visit_reporting(&mut self, expr: &mut Expr, warnings: &mut Vec<String>)
        ensures
            final(expr)@ == prettify(old(expr)@),
            texts(final(warnings)@) == texts(old(warnings)@) + prettify_warnings(old(expr)@),
    {
        let rules = prettify_transforms();
        rules.visit_reporting(expr, warnings);
    }
}

} // verus!
