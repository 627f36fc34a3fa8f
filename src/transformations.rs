//! The rewrite engine: ordered rule sets applied to a fixed point, and the
//! post-order traversal that applies them at every node.

pub mod derivative;
pub mod prettify;
pub mod simplify;

use vstd::prelude::*;
use vstd::string::StringExecFns;
use crate::num::{product, quotient, power, sum, Num};
use crate::parser::{texts, BinOpKind, Expr, Term};
use crate::rule::lexer::rule_lex_spec;
use crate::rule::parser::{parse_rule_tokens, Pat, RuleExpr};
use crate::rule::{binds_id, bindings_view, bound_or_error, find_binding, lookup, match_bindings, writable, write_pat, Bindings, MatchResult};

verus! {

/// The most passes over a rule set at one node; a rule set that still
/// changes the node after that many passes is stopped there.
pub const MAX_ITERATIONS_PER_APPLY: i32 = 500;

/// How deep the traversal descends from the node it starts at; deeper
/// nodes are left as they are.
pub const MAX_VISIT_DEPTH: u64 = 10000;

/// Computed rewrites: they read the bindings of their pattern and either
/// give the replacement or decline.
#[derive(Debug, Clone, Copy, PartialEq, Eq, Structural)]
pub enum Handler {
    /// `_lit1 + _lit2`: the sum of the two literals.
    FoldAdd,
    /// `_lit1 * _lit2`: their product.
    FoldMultiply,
    /// `_lit1 / _lit2`: their quotient.
    FoldDivide,
    /// `_lit1 ^ _lit2`: the power.
    FoldPower,
    /// `_1 ^ _lit2` with a negative literal: `1 / _1 ^ -_lit2`.
    NegativeExponent,
}

/// What a rule puts in place of what its pattern matched.
pub enum TransformOut {
    OutPattern(RuleExpr),
    /// A handler; if it declines, the expression is not modified.
    OutHandler(Handler),
}

pub enum RuleOut {
    Template(Pat),
    Handler(Handler),
}

impl View for TransformOut {
    type V = RuleOut;

    open spec fn view(&self) -> RuleOut {
        match self {
            TransformOut::OutPattern(p) => RuleOut::Template(p@),
            TransformOut::OutHandler(h) => RuleOut::Handler(*h),
        }
    }
}

/// A rule: a pattern and what replaces its matches.
pub struct Transformation {
    pub pattern: RuleExpr,
    pub out: TransformOut,
}

pub type Rule = (Pat, RuleOut);

impl View for Transformation {
    type V = Rule;

    open spec fn view(&self) -> Rule {
        (self.pattern@, self.out@)
    }
}

/// An ordered list of rules, applied until none changes the expression.
pub struct RuleTransformSet {
    pub rules: Vec<Transformation>,
}

impl View for RuleTransformSet {
    type V = Seq<Rule>;

    open spec fn view(&self) -> Seq<Rule> {
        self.rules@.map_values(|t: Transformation| t@)
    }
}

pub open spec fn pnum(n: int) -> Pat {
    Pat::Literal((n, 1))
}

pub open spec fn pany(id: int) -> Pat {
    Pat::AnySubExpr(id)
}

pub open spec fn plit(id: int) -> Pat {
    Pat::AnyLiteral(id)
}

pub open spec fn pnonlit(id: int) -> Pat {
    Pat::AnyNonLiteral(id)
}

pub open spec fn pbin(l: Pat, op: BinOpKind, r: Pat) -> Pat {
    Pat::Binary(Box::new(l), op, Box::new(r))
}

pub open spec fn pneg(p: Pat) -> Pat {
    Pat::Unary(crate::parser::UnaryOpKind::Minus, Box::new(p))
}

pub(crate) fn num(n: i32) -> (r: RuleExpr)
    ensures
        r@ == pnum(n as int),
{
    RuleExpr::Literal(Num::from_i32(n))
}

pub(crate) fn any(id: i32) -> (r: RuleExpr)
    ensures
        r@ == pany(id as int),
{
    RuleExpr::AnySubExpr(id)
}

pub(crate) fn any_lit(id: i32) -> (r: RuleExpr)
    ensures
        r@ == plit(id as int),
{
    RuleExpr::AnyLiteral(id)
}

pub(crate) fn any_nonlit(id: i32) -> (r: RuleExpr)
    ensures
        r@ == pnonlit(id as int),
{
    RuleExpr::AnyNonLiteral(id)
}

pub(crate) fn bin(l: RuleExpr, op: BinOpKind, r: RuleExpr) -> (e: RuleExpr)
    ensures
        e@ == pbin(l@, op, r@),
{
    proof {
        reveal_with_fuel(crate::rule::parser::pat_of, 2);
    }
    RuleExpr::Binary { left: Box::new(l), op, right: Box::new(r) }
}

pub(crate) fn neg(p: RuleExpr) -> (e: RuleExpr)
    ensures
        e@ == pneg(p@),
{
    proof {
        reveal_with_fuel(crate::rule::parser::pat_of, 2);
    }
    RuleExpr::Unary { op: crate::parser::UnaryOpKind::Minus, right: Box::new(p) }
}

pub(crate) fn template(pattern: RuleExpr, out: RuleExpr) -> (r: Transformation)
    ensures
        r@ == (pattern@, RuleOut::Template(out@)),
{
    Transformation { pattern, out: TransformOut::OutPattern(out) }
}

pub(crate) fn handler(pattern: RuleExpr, h: Handler) -> (r: Transformation)
    ensures
        r@ == (pattern@, RuleOut::Handler(h)),
{
    Transformation { pattern, out: TransformOut::OutHandler(h) }
}

/// The pattern that rule text spells.
pub open spec fn rule_of_str(s: Seq<char>) -> Pat {
    parse_rule_tokens(rule_lex_spec(s)).0
}

pub open spec fn template_rule(p: Seq<char>, out: Seq<char>) -> Rule {
    (rule_of_str(p), RuleOut::Template(rule_of_str(out)))
}

pub open spec fn handler_rule(p: Seq<char>, h: Handler) -> Rule {
    (rule_of_str(p), RuleOut::Handler(h))
}

pub open spec fn lit_one() -> Term {
    Term::Literal((1, 1))
}

/// The two literal operands bound to ids 1 and 2.
pub open spec fn literal_pair(bs: Bindings) -> Option<((int, int), (int, int))> {
    match (lookup(bs, 1), lookup(bs, 2)) {
        (Some(Term::Literal(a)), Some(Term::Literal(b))) => Some((a, b)),
        _ => None,
    }
}

pub open spec fn fold_with(r: Option<(int, int)>) -> Option<Term> {
    match r {
        Some(v) => Some(Term::Literal(v)),
        None => None,
    }
}

/// What a handler gives for the bindings of its match. A fold declines
/// where the exact result has no `Num` (division by zero, a fractional
/// power, a value out of range).
pub open spec fn handler_out(h: Handler, bs: Bindings) -> Option<Term> {
    match h {
        Handler::NegativeExponent => match lookup(bs, 2) {
            Some(Term::Literal(v)) => if v.0 < 0 {
                Some(
                    Term::Binary(
                        Box::new(lit_one()),
                        BinOpKind::Slash,
                        Box::new(
                            Term::Binary(
                                Box::new(bound_or_error(bs, 1)),
                                BinOpKind::Exponent,
                                Box::new(Term::Literal((-v.0, v.1))),
                            ),
                        ),
                    ),
                )
            } else {
                None
            },
            _ => None,
        },
        _ => match literal_pair(bs) {
            Some((a, b)) => match h {
                Handler::FoldAdd => fold_with(sum(a, b)),
                Handler::FoldMultiply => fold_with(product(a, b)),
                Handler::FoldDivide => fold_with(quotient(a, b)),
                _ => fold_with(power(a, b)),
            },
            None => None,
        },
    }
}

/// The replacement that a rule gives for `e`, if its pattern matches and
/// its output is written: a template whose wildcards are all bound, or a
/// handler that does not decline.
pub open spec fn fire(r: Rule, e: Term) -> Option<Term> {
    match match_bindings(r.0, e) {
        None => None,
        Some(bs) => match r.1 {
            RuleOut::Template(t) => if writable(t, bs) {
                Some(write_pat(t, bs))
            } else {
                None
            },
            RuleOut::Handler(h) => handler_out(h, bs),
        },
    }
}

/// One pass over the rules from index `i`: each rule is tried in order on
/// the expression as the earlier ones left it. Also says whether any fired.
pub open spec fn pass_from(rules: Seq<Rule>, i: int, e: Term) -> (Term, bool)
    decreases rules.len() - i,
{
    if i < 0 || i >= rules.len() {
        (e, false)
    } else {
        match fire(rules[i], e) {
            Some(e2) => (pass_from(rules, i + 1, e2).0, true),
            None => pass_from(rules, i + 1, e),
        }
    }
}

/// Passes until one changes nothing, at most `fuel` of them.
pub open spec fn fixpoint(rules: Seq<Rule>, e: Term, fuel: nat) -> Term
    decreases fuel,
{
    let p = pass_from(rules, 0, e);
    if !p.1 || fuel <= 1 {
        p.0
    } else {
        fixpoint(rules, p.0, (fuel - 1) as nat)
    }
}

pub open spec fn apply_rules_spec(rules: Seq<Rule>, e: Term) -> Term {
    fixpoint(rules, e, MAX_ITERATIONS_PER_APPLY as nat)
}

/// The children of `e`, each visited with `depth`.
pub open spec fn walk(rules: Seq<Rule>, e: Term, depth: nat) -> Term
    decreases depth, 2int,
{
    match e {
        Term::Binary(l, op, r) => Term::Binary(
            Box::new(visit(rules, *l, depth)),
            op,
            Box::new(visit(rules, *r, depth)),
        ),
        Term::Unary(op, r) => Term::Unary(op, Box::new(visit(rules, *r, depth))),
        _ => e,
    }
}

/// The post-order traversal: the children first, then the rules at the
/// node to a fixed point, then the children of what that left, to pick up
/// what the rewrite made possible.
pub open spec fn visit(rules: Seq<Rule>, e: Term, depth: nat) -> Term
    decreases depth, 1int,
{
    if depth == 0 {
        e
    } else {
        let d = (depth - 1) as nat;
        walk(rules, apply_rules_spec(rules, walk(rules, e, d)), d)
    }
}

pub open spec fn visit_all(rules: Seq<Rule>, e: Term) -> Term {
    visit(rules, e, MAX_VISIT_DEPTH as nat)
}

pub open spec fn msg_cap() -> Seq<char> {
    "Exceeded MAX_ITERATIONS_PER_APPLY, exiting immediately"@
}

/// Whether the last of at most `fuel` passes still changed the term: the
/// rule set was stopped by the cap rather than by a fixed point.
pub open spec fn capped(rules: Seq<Rule>, e: Term, fuel: nat) -> bool
    decreases fuel,
{
    let p = pass_from(rules, 0, e);
    if !p.1 {
        false
    } else if fuel <= 1 {
        true
    } else {
        capped(rules, p.0, (fuel - 1) as nat)
    }
}

/// The warning that applying the rules to `e` gives: one where the cap
/// stopped them, none otherwise.
pub open spec fn cap_warnings(rules: Seq<Rule>, e: Term) -> Seq<Seq<char>> {
    if capped(rules, e, MAX_ITERATIONS_PER_APPLY as nat) {
        seq![msg_cap()]
    } else {
        seq![]
    }
}

/// The warnings of visiting the children of `e` (see `walk`), in order.
pub open spec fn walk_warnings(rules: Seq<Rule>, e: Term, depth: nat) -> Seq<Seq<char>>
    decreases depth, 2int,
{
    match e {
        Term::Binary(l, op, r) => visit_warnings(rules, *l, depth) + visit_warnings(rules, *r, depth),
        Term::Unary(op, r) => visit_warnings(rules, *r, depth),
        _ => seq![],
    }
}

/// The warnings of the traversal of `e` (see `visit`), in order.
pub open spec fn visit_warnings(rules: Seq<Rule>, e: Term, depth: nat) -> Seq<Seq<char>>
    decreases depth, 1int,
{
    if depth == 0 {
        seq![]
    } else {
        let d = (depth - 1) as nat;
        let inner = walk(rules, e, d);
        walk_warnings(rules, e, d) + cap_warnings(rules, inner) + walk_warnings(
            rules,
            apply_rules_spec(rules, inner),
            d,
        )
    }
}

pub open spec fn visit_all_warnings(rules: Seq<Rule>, e: Term) -> Seq<Seq<char>> {
    visit_warnings(rules, e, MAX_VISIT_DEPTH as nat)
}

/// No rule fires at the root of `t`.
pub open spec fn stuck(rules: Seq<Rule>, t: Term) -> bool {
    forall|i: int| 0 <= i < rules.len() ==> #[trigger] fire(rules[i], t) is None
}

/// No rule fires at any node of `t`.
pub open spec fn normal(rules: Seq<Rule>, t: Term) -> bool
    decreases t,
{
    stuck(rules, t) && match t {
        Term::Binary(l, _, r) => normal(rules, *l) && normal(rules, *r),
        Term::Unary(_, r) => normal(rules, *r),
        _ => true,
    }
}

proof fn lemma_pass_stuck(rules: Seq<Rule>, i: int, t: Term)
    requires
        stuck(rules, t),
        0 <= i,
    ensures
        pass_from(rules, i, t) == (t, false),
    decreases rules.len() - i,
{
    if i < rules.len() {
        lemma_pass_stuck(rules, i + 1, t);
    }
}

/// A term in normal form is a fixed point of the traversal, at any depth.
pub proof fn lemma_visit_normal(rules: Seq<Rule>, t: Term, depth: nat)
    requires
        normal(rules, t),
    ensures
        visit(rules, t, depth) == t,
        walk(rules, t, depth) == t,
    decreases depth, t,
{
    match t {
        Term::Binary(l, op, r) => {
            lemma_visit_normal(rules, *l, depth);
            lemma_visit_normal(rules, *r, depth);
        },
        Term::Unary(op, r) => {
            lemma_visit_normal(rules, *r, depth);
        },
        _ => {},
    }
    assert(walk(rules, t, depth) == t);
    if depth > 0 {
        let d = (depth - 1) as nat;
        lemma_visit_normal(rules, t, d);
        lemma_pass_stuck(rules, 0, t);
        assert(apply_rules_spec(rules, t) == t);
    }
}

/// The traversal leaves a term in normal form as it is.
pub proof fn visit_all_keeps_normal(rules: Seq<Rule>, t: Term)
    requires
        normal(rules, t),
    ensures
        visit_all(rules, t) == t,
{
    lemma_visit_normal(rules, t, MAX_VISIT_DEPTH as nat);
}

/// Every wildcard of the template `t` is bound by a match of `p`, and a
/// negated literal wildcard by a literal wildcard of `p`.
pub open spec fn covers(p: Pat, t: Pat) -> bool
    decreases t,
{
    match t {
        Pat::AnySubExpr(id) => binds_id(p, id, false),
        Pat::AnyLiteral(id) => binds_id(p, id, false),
        Pat::AnyNonLiteral(id) => binds_id(p, id, false),
        Pat::Binary(l, _, r) => covers(p, *l) && covers(p, *r),
        Pat::Unary(op, r) => match *r {
            Pat::AnyLiteral(id) if op == crate::parser::UnaryOpKind::Minus => binds_id(p, id, true),
            _ => covers(p, *r),
        },
        _ => true,
    }
}

fn pattern_binds(p: &RuleExpr, id: i32, literal_only: bool) -> (r: bool)
    ensures
        r == binds_id(p@, id as int, literal_only),
    decreases p,
{
    match p {
        RuleExpr::AnySubExpr(i) | RuleExpr::AnyNonLiteral(i) => !literal_only && *i == id,
        RuleExpr::AnyLiteral(i) => *i == id,
        RuleExpr::Binary { left, op: _, right } => pattern_binds(left, id, literal_only) || pattern_binds(
            right,
            id,
            literal_only,
        ),
        RuleExpr::Unary { op: _, right } => pattern_binds(right, id, literal_only),
        _ => false,
    }
}

fn template_covered(p: &RuleExpr, t: &RuleExpr) -> (r: bool)
    ensures
        r == covers(p@, t@),
    decreases t,
{
    match t {
        RuleExpr::AnySubExpr(id) | RuleExpr::AnyLiteral(id) | RuleExpr::AnyNonLiteral(id) => pattern_binds(
            p,
            *id,
            false,
        ),
        RuleExpr::Binary { left, op: _, right } => template_covered(p, left) && template_covered(p, right),
        RuleExpr::Unary { op, right } => match &**right {
            RuleExpr::AnyLiteral(id) if *op == crate::parser::UnaryOpKind::Minus => pattern_binds(p, *id, true),
            _ => template_covered(p, right),
        },
        _ => true,
    }
}

/// Whether a template can be written with `bs` (see `writable`).
pub(crate) fn is_writable(t: &RuleExpr, bs: &Vec<(i32, Expr)>) -> (r: bool)
    ensures
        r == writable(t@, bindings_view(bs@)),
    decreases t,
{
    match t {
        RuleExpr::Literal(_) => true,
        RuleExpr::AnySubExpr(id) | RuleExpr::AnyLiteral(id) | RuleExpr::AnyNonLiteral(id) => {
            find_binding(bs, *id).is_some()
        },
        RuleExpr::Binary { left, op: _, right } => is_writable(left, bs) && is_writable(right, bs),
        RuleExpr::Unary { op, right } => match &**right {
            RuleExpr::AnyLiteral(id) if *op == crate::parser::UnaryOpKind::Minus => {
                match find_binding(bs, *id) {
                    Some(Expr::Literal(_)) => true,
                    _ => false,
                }
            },
            _ => is_writable(right, bs),
        },
        RuleExpr::Error => true,
    }
}

fn bound_literal(bs: &Vec<(i32, Expr)>, id: i32) -> (r: Option<Num>)
    ensures
        match r {
            Some(n) => lookup(bindings_view(bs@), id as int) == Some(Term::Literal(n@)),
            None => !(lookup(bindings_view(bs@), id as int) matches Some(Term::Literal(_))),
        },
{
    match find_binding(bs, id) {
        Some(Expr::Literal(n)) => Some(*n),
        _ => None,
    }
}

/// Runs a handler on the bindings of its match (see `handler_out`).
pub fn run_handler(h: Handler, bs: &Vec<(i32, Expr)>) -> (r: Option<Expr>)
    ensures
        match r {
            Some(e) => handler_out(h, bindings_view(bs@)) == Some(e@),
            None => handler_out(h, bindings_view(bs@)) is None,
        },
{
    match h {
        Handler::NegativeExponent => match bound_literal(bs, 2) {
            Some(v) => if v.is_negative() {
                let base = match find_binding(bs, 1) {
                    Some(e) => e.duplicate(),
                    None => Expr::Error,
                };
                assert(base@ == bound_or_error(bindings_view(bs@), 1));
                let r = Some(
                    Expr::Binary {
                        left: Box::new(Expr::Literal(Num::from_i32(1))),
                        op: BinOpKind::Slash,
                        right: Box::new(
                            Expr::Binary {
                                left: Box::new(base),
                                op: BinOpKind::Exponent,
                                right: Box::new(Expr::Literal(v.neg())),
                            },
                        ),
                    },
                );
                proof {
                    reveal_with_fuel(crate::parser::term_of, 3);
                }
                assert(r->0@ == Term::Binary(
                        Box::new(lit_one()),
                        BinOpKind::Slash,
                        Box::new(
                            Term::Binary(
                                Box::new(bound_or_error(bindings_view(bs@), 1)),
                                BinOpKind::Exponent,
                                Box::new(Term::Literal((-v@.0, v@.1))),
                            ),
                        ),
                    ));
                assert(handler_out(h, bindings_view(bs@)) == Some(r->0@));
                r
            } else {
                None
            },
            None => None,
        },
        _ => {
            let a = bound_literal(bs, 1);
            let b = bound_literal(bs, 2);
            match (a, b) {
                (Some(a), Some(b)) => {
                    let r = match h {
                        Handler::FoldAdd => a.add(&b),
                        Handler::FoldMultiply => a.mul(&b),
                        Handler::FoldDivide => a.div(&b),
                        _ => a.pow(&b),
                    };
                    match r {
                        Some(v) => Some(Expr::Literal(v)),
                        None => None,
                    }
                },
                _ => None,
            }
        },
    }
}

impl Transformation {
    /// The replacement this rule gives for `expr` (see `fire`).
    pub fn fire(&self, expr: &Expr) -> (r: Option<Expr>)
        ensures
            match r {
                Some(e) => fire(self@, expr@) == Some(e@),
                None => fire(self@, expr@) is None,
            },
    {
        let res: MatchResult = self.pattern.match_expr(expr);
        if !res.matches {
            return None;
        }
        match &self.out {
            TransformOut::OutPattern(t) => {
                if is_writable(t, &res.matched_exprs) {
                    Some(t.write_expr(&res.matched_exprs))
                } else {
                    None
                }
            },
            TransformOut::OutHandler(h) => run_handler(*h, &res.matched_exprs),
        }
    }
}

impl RuleTransformSet {
    /// Builds a rule set from rule text: first the template rules, in
    /// order, then the handler rules.
    pub(crate) fn from_rule_text(patterns: &[(&str, &str)], handlers: &[(&str, Handler)]) -> (r: RuleTransformSet)
        ensures
            r@ == patterns@.map_values(|p: (&str, &str)| template_rule(p.0@, p.1@)) + handlers@.map_values(
                |h: (&str, Handler)| handler_rule(h.0@, h.1),
            ),
    {
        let mut rules: Vec<Transformation> = Vec::new();
        let mut i: usize = 0;
        while i < patterns.len()
            invariant
                i <= patterns@.len(),
                rules@.map_values(|t: Transformation| t@) =~= patterns@.subrange(0, i as int).map_values(
                    |p: (&str, &str)| template_rule(p.0@, p.1@),
                ),
            decreases patterns@.len() - i,
        {
            let ghost before = rules@;
            let pattern = RuleExpr::new_rule_from_str(patterns[i].0);
            let out = RuleExpr::new_rule_from_str(patterns[i].1);
            let t = Transformation { pattern, out: TransformOut::OutPattern(out) };
            assert(t@ == template_rule(patterns@[i as int].0@, patterns@[i as int].1@));
            rules.push(t);
            i = i + 1;
            proof {
                assert(rules@ == before.push(t));
                assert(patterns@.subrange(0, i as int) =~= patterns@.subrange(0, i - 1).push(
                    patterns@[i - 1],
                ));
                assert(rules@.map_values(|t: Transformation| t@) =~= before.map_values(
                    |t: Transformation| t@,
                ).push(t@));
                assert(patterns@.subrange(0, i as int).map_values(
                    |p: (&str, &str)| template_rule(p.0@, p.1@),
                ) =~= patterns@.subrange(0, i - 1).map_values(
                    |p: (&str, &str)| template_rule(p.0@, p.1@),
                ).push(template_rule(patterns@[i - 1].0@, patterns@[i - 1].1@)));
            }
        }
        let ghost firsts = rules@.map_values(|t: Transformation| t@);
        let mut j: usize = 0;
        while j < handlers.len()
            invariant
                j <= handlers@.len(),
                rules@.map_values(|t: Transformation| t@) =~= firsts + handlers@.subrange(0, j as int).map_values(
                    |h: (&str, Handler)| handler_rule(h.0@, h.1),
                ),
            decreases handlers@.len() - j,
        {
            let ghost before = rules@;
            let pattern = RuleExpr::new_rule_from_str(handlers[j].0);
            let t = Transformation { pattern, out: TransformOut::OutHandler(handlers[j].1) };
            assert(t@ == handler_rule(handlers@[j as int].0@, handlers@[j as int].1));
            rules.push(t);
            j = j + 1;
            proof {
                assert(rules@ == before.push(t));
                assert(handlers@.subrange(0, j as int) =~= handlers@.subrange(0, j - 1).push(
                    handlers@[j - 1],
                ));
                assert(rules@.map_values(|t: Transformation| t@) =~= before.map_values(
                    |t: Transformation| t@,
                ).push(t@));
                assert(handlers@.subrange(0, j as int).map_values(
                    |h: (&str, Handler)| handler_rule(h.0@, h.1),
                ) =~= handlers@.subrange(0, j - 1).map_values(
                    |h: (&str, Handler)| handler_rule(h.0@, h.1),
                ).push(handler_rule(handlers@[j - 1].0@, handlers@[j - 1].1)));
            }
        }
        proof {
            assert(patterns@.subrange(0, patterns@.len() as int) =~= patterns@);
            assert(handlers@.subrange(0, handlers@.len() as int) =~= handlers@);
        }
        RuleTransformSet { rules }
    }

    /// Builds a rule set from rule text (see `from_rule_text`), refusing
    /// one with a template that uses a wildcard its pattern does not bind:
    /// such a rule is an authoring error.
    pub fn new_from_str(patterns: &[(&str, &str)], handlers: &[(&str, Handler)]) -> (r: Result<
        RuleTransformSet,
        String,
    >)
        ensures
            (r is Ok) == (forall|i: int|
                0 <= i < patterns@.len() ==> #[trigger] covers(
                    rule_of_str(patterns@[i].0@),
                    rule_of_str(patterns@[i].1@),
                )),
            r matches Ok(set) ==> set@ == patterns@.map_values(
                |p: (&str, &str)| template_rule(p.0@, p.1@),
            ) + handlers@.map_values(|h: (&str, Handler)| handler_rule(h.0@, h.1)),
    {
        let set = RuleTransformSet::from_rule_text(patterns, handlers);
        let mut i: usize = 0;
        while i < patterns.len()
            invariant
                i <= patterns@.len(),
                set@ == patterns@.map_values(|p: (&str, &str)| template_rule(p.0@, p.1@)) + handlers@.map_values(
                    |h: (&str, Handler)| handler_rule(h.0@, h.1),
                ),
                set.rules@.len() == set@.len(),
                forall|j: int|
                    0 <= j < i ==> #[trigger] covers(
                        rule_of_str(patterns@[j].0@),
                        rule_of_str(patterns@[j].1@),
                    ),
            decreases patterns@.len() - i,
        {
            let rule = &set.rules[i];
            assert(set@[i as int] == rule@);
            assert(set@[i as int] == template_rule(patterns@[i as int].0@, patterns@[i as int].1@));
            match &rule.out {
                TransformOut::OutPattern(t) => {
                    if !template_covered(&rule.pattern, t) {
                        proof {
                            reveal_strlit("a template uses a wildcard that its pattern does not bind");
                        }
                        return Err(String::from_str("a template uses a wildcard that its pattern does not bind"));
                    }
                },
                TransformOut::OutHandler(_) => {},
            }
            i = i + 1;
        }
        Ok(set)
    }

    /// One pass over the rules (see `pass_from`).
    fn apply_pass(&self, expr: Expr) -> (r: (Expr, bool))
        ensures
            (r.0@, r.1) == pass_from(self@, 0, expr@),
    {
        let mut cur = expr;
        let mut changed = false;
        let mut i: usize = 0;
        while i < self.rules.len()
            invariant
                i <= self@.len(),
                self@.len() == self.rules@.len(),
                pass_from(self@, 0, expr@) == (pass_from(self@, i as int, cur@).0, changed || pass_from(
                    self@,
                    i as int,
                    cur@,
                ).1),
            decreases self.rules@.len() - i,
        {
            assert(self@[i as int] == self.rules@[i as int]@);
            match self.rules[i].fire(&cur) {
                Some(next) => {
                    cur = next;
                    changed = true;
                },
                None => {},
            }
            i = i + 1;
        }
        (cur, changed)
    }

    /// Applies the rules to `expr` until a pass changes nothing, or
    /// `MAX_ITERATIONS_PER_APPLY` passes have run.
    pub fn apply_rules(&self, expr: &Expr) -> (r: Expr)
        ensures
            r@ == apply_rules_spec(self@, expr@),
    {
        let mut warnings: Vec<String> = Vec::new();
        self.apply_rules_reporting(expr, &mut warnings)
    }

    /// As `apply_rules`, adding a warning to `warnings` where the cap, not
    /// a fixed point, stopped the rules.
    pub fn apply_rules_reporting(&self, expr: &Expr, warnings: &mut Vec<String>) -> (r: Expr)
        ensures
            r@ == apply_rules_spec(self@, expr@),
            texts(final(warnings)@) == texts(old(warnings)@) + cap_warnings(self@, expr@),
    {
        let mut cur = expr.duplicate();
        let mut fuel: i32 = MAX_ITERATIONS_PER_APPLY;
        while fuel > 0
            invariant
                1 <= fuel <= MAX_ITERATIONS_PER_APPLY,
                apply_rules_spec(self@, expr@) == fixpoint(self@, cur@, fuel as nat),
                capped(self@, expr@, MAX_ITERATIONS_PER_APPLY as nat) == capped(self@, cur@, fuel as nat),
                warnings@ == old(warnings)@,
            decreases fuel,
        {
            let (next, changed) = self.apply_pass(cur);
            if !changed {
                proof {
                    assert(texts(warnings@) =~= texts(old(warnings)@) + cap_warnings(self@, expr@));
                }
                return next;
            }
            if fuel <= 1 {
                let ghost before = warnings@;
                warnings.push(String::from_str("Exceeded MAX_ITERATIONS_PER_APPLY, exiting immediately"));
                proof {
                    assert(texts(warnings@) =~= texts(before) + seq![msg_cap()]);
                }
                return next;
            }
            cur = next;
            fuel = fuel - 1;
        }
        proof {
            assert(texts(warnings@) =~= texts(old(warnings)@) + cap_warnings(self@, expr@));
        }
        cur
    }

    /// The children of `expr`, each visited (see `walk`).
    fn walk_children(&self, expr: Expr, depth: u64, warnings: &mut Vec<String>) -> (r: Expr)
        ensures
            r@ == walk(self@, expr@, depth as nat),
            texts(final(warnings)@) == texts(old(warnings)@) + walk_warnings(self@, expr@, depth as nat),
        decreases depth, 2int,
    {
        let ghost e = expr@;
        match expr {
            Expr::Binary { left, op, right } => {
                let ghost w0 = texts(warnings@);
                let l = self.visit_node(*left, depth, warnings);
                let ghost w1 = texts(warnings@);
                let r = self.visit_node(*right, depth, warnings);
                proof {
                    assert(texts(warnings@) =~= w0 + walk_warnings(self@, e, depth as nat));
                }
                Expr::Binary { left: Box::new(l), op, right: Box::new(r) }
            },
            Expr::Unary { op, right } => {
                let r = self.visit_node(*right, depth, warnings);
                Expr::Unary { op, right: Box::new(r) }
            },
            other => {
                proof {
                    assert(texts(warnings@) =~= texts(old(warnings)@) + walk_warnings(self@, e, depth as nat));
                }
                other
            },
        }
    }

    /// The post-order traversal of `expr` (see `visit`).
    fn visit_node(&self, expr: Expr, depth: u64, warnings: &mut Vec<String>) -> (r: Expr)
        ensures
            r@ == visit(self@, expr@, depth as nat),
            texts(final(warnings)@) == texts(old(warnings)@) + visit_warnings(self@, expr@, depth as nat),
        decreases depth, 1int,
    {
        if depth == 0 {
            proof {
                assert(texts(warnings@) =~= texts(old(warnings)@) + visit_warnings(self@, expr@, depth as nat));
            }
            expr
        } else {
            let ghost e = expr@;
            let inner = self.walk_children(expr, depth - 1, warnings);
            let applied = self.apply_rules_reporting(&inner, warnings);
            let r = self.walk_children(applied, depth - 1, warnings);
            proof {
                assert(texts(warnings@) =~= texts(old(warnings)@) + visit_warnings(self@, e, depth as nat));
            }
            r
        }
    }

    /// Rewrites `expr` in place by the traversal (see `visit_all`).
    pub fn visit(&self, expr: &mut Expr)
        ensures
            final(expr)@ == visit_all(self@, old(expr)@),
    {
        let mut warnings: Vec<String> = Vec::new();
        self.visit_reporting(expr, &mut warnings);
    }

    /// As `visit`, adding to `warnings` one warning for each node where
    /// the cap stopped the rules.
    pub fn visit_reporting(&self, expr: &mut Expr, warnings: &mut Vec<String>)
        ensures
            final(expr)@ == visit_all(self@, old(expr)@),
            texts(final(warnings)@) == texts(old(warnings)@) + visit_all_warnings(self@, old(expr)@),
    {
        let mut taken = Expr::Error;
        core::mem::swap(expr, &mut taken);
        *expr = self.visit_node(taken, MAX_VISIT_DEPTH, warnings);
    }
}

} // verus!
