//! Patterns over expressions: matching a pattern against an expression,
//! and writing a template with the sub-expressions that a match bound.

pub mod lexer;
pub mod parser;

use vstd::prelude::*;
use crate::parser::{Expr, Term, UnaryOpKind};
use lexer::{rule_lex, rule_lex_spec};
use parser::{parse_rule_tokens, Pat, RuleExpr, RuleParser};

verus! {

/// Wildcard ids with the terms bound to them, in the order of binding.
pub type Bindings = Seq<(int, Term)>;

/// The term first bound to `id`.
pub open spec fn lookup(bs: Bindings, id: int) -> Option<Term>
    decreases bs.len(),
{
    if bs.len() == 0 {
        None
    } else if bs[0].0 == id {
        Some(bs[0].1)
    } else {
        lookup(bs.drop_first(), id)
    }
}

/// Binds `id` to `e`: a new binding if `id` is free, agreement if it is
/// already bound to an equal term, failure otherwise.
pub open spec fn bind(bs: Bindings, id: int, e: Term) -> Option<Bindings> {
    match lookup(bs, id) {
        None => Some(bs.push((id, e))),
        Some(old) => if old == e {
            Some(bs)
        } else {
            None
        },
    }
}

/// Matches `p` against `e` in lock-step, left child before right, adding
/// to `bs` the bindings of the wildcards met.
pub open spec fn match_pat(p: Pat, e: Term, bs: Bindings) -> Option<Bindings>
    decreases p,
{
    match p {
        Pat::Literal(v) => if e == Term::Literal(v) {
            Some(bs)
        } else {
            None
        },
        Pat::AnySubExpr(id) => bind(bs, id, e),
        Pat::AnyLiteral(id) => if e is Literal {
            bind(bs, id, e)
        } else {
            None
        },
        Pat::AnyNonLiteral(id) => if e is Literal {
            None
        } else {
            bind(bs, id, e)
        },
        Pat::Binary(pl, op, pr) => match e {
            Term::Binary(el, eop, er) => if op == eop {
                match match_pat(*pl, *el, bs) {
                    Some(b) => match_pat(*pr, *er, b),
                    None => None,
                }
            } else {
                None
            },
            _ => None,
        },
        Pat::Unary(op, pr) => match e {
            Term::Unary(eop, er) => if op == eop {
                match_pat(*pr, *er, bs)
            } else {
                None
            },
            _ => None,
        },
        Pat::Error => None,
    }
}

/// The bindings of a successful match of `p` against `e`, from none.
pub open spec fn match_bindings(p: Pat, e: Term) -> Option<Bindings> {
    match_pat(p, e, seq![])
}

/// Whether a template can be written with `bs`: every wildcard is bound,
/// and a negated literal wildcard is bound to a literal.
pub open spec fn writable(p: Pat, bs: Bindings) -> bool
    decreases p,
{
    match p {
        Pat::Literal(_) => true,
        Pat::AnySubExpr(id) => lookup(bs, id) is Some,
        Pat::AnyLiteral(id) => lookup(bs, id) is Some,
        Pat::AnyNonLiteral(id) => lookup(bs, id) is Some,
        Pat::Binary(l, _, r) => writable(*l, bs) && writable(*r, bs),
        Pat::Unary(op, r) => match *r {
            Pat::AnyLiteral(id) if op == UnaryOpKind::Minus => match lookup(bs, id) {
                Some(t) => t is Literal,
                None => false,
            },
            _ => writable(*r, bs),
        },
        Pat::Error => true,
    }
}

/// The term a template denotes under `bs`. A negated literal, or a negated
/// literal wildcard, is written as the negative literal; unary `+` leaves
/// its operand as it is.
pub open spec fn write_pat(p: Pat, bs: Bindings) -> Term
    decreases p,
{
    match p {
        Pat::Literal(v) => Term::Literal(v),
        Pat::AnySubExpr(id) => bound_or_error(bs, id),
        Pat::AnyLiteral(id) => bound_or_error(bs, id),
        Pat::AnyNonLiteral(id) => bound_or_error(bs, id),
        Pat::Binary(l, op, r) => Term::Binary(Box::new(write_pat(*l, bs)), op, Box::new(write_pat(*r, bs))),
        Pat::Unary(op, r) => if op == UnaryOpKind::Minus {
            match *r {
                Pat::Literal(v) => Term::Literal((-v.0, v.1)),
                Pat::AnyLiteral(id) => match lookup(bs, id) {
                    Some(Term::Literal(v)) => Term::Literal((-v.0, v.1)),
                    _ => Term::Error,
                },
                _ => Term::Unary(op, Box::new(write_pat(*r, bs))),
            }
        } else {
            write_pat(*r, bs)
        },
        Pat::Error => Term::Error,
    }
}

pub open spec fn bound_or_error(bs: Bindings, id: int) -> Term {
    match lookup(bs, id) {
        Some(t) => t,
        None => Term::Error,
    }
}

pub open spec fn bindings_view(v: Seq<(i32, Expr)>) -> Bindings {
    v.map_values(|b: (i32, Expr)| (b.0 as int, b.1@))
}

/// The outcome of matching a pattern against an expression.
pub struct MatchResult {
    /// `true` if the match was successful, `false` otherwise.
    pub matches: bool,
    /// The wildcard bindings; meaningful only when `matches` holds (a
    /// failed match may leave partial bindings).
    pub matched_exprs: Vec<(i32, Expr)>,
}

/// Finds the expression first bound to `id`.
pub fn find_binding(bs: &Vec<(i32, Expr)>, id: i32) -> (r: Option<&Expr>)
    ensures
        match r {
            Some(e) => lookup(bindings_view(bs@), id as int) == Some(e@),
            None => lookup(bindings_view(bs@), id as int) is None,
        },
{
    let ghost all = bindings_view(bs@);
    let mut i: usize = 0;
    assert(all.subrange(0, all.len() as int) =~= all);
    while i < bs.len()
        invariant
            i <= bs@.len(),
            all == bindings_view(bs@),
            lookup(all, id as int) == lookup(all.subrange(i as int, all.len() as int), id as int),
        decreases bs.len() - i,
    {
        let ghost rest = all.subrange(i as int, all.len() as int);
        assert(rest.drop_first() =~= all.subrange(i + 1, all.len() as int));
        if bs[i].0 == id {
            return Some(&bs[i].1);
        }
        i = i + 1;
    }
    None
}

impl RuleExpr {
    /// Parses rule text into a pattern; diagnostics are dropped, and the
    /// invalid parts stand as `Error`, which matches nothing.
    pub fn new_rule_from_str(pattern: &str) -> (r: RuleExpr)
        ensures
            r@ == parse_rule_tokens(rule_lex_spec(pattern@)).0,
    {
        let tokens = rule_lex(pattern);
        let mut parser = RuleParser::new(tokens);
        parser.parse()
    }

    fn match_expr_inner(&self, expr: &Expr, bs: &mut Vec<(i32, Expr)>) -> (r: bool)
        ensures
            r == (match_pat(self@, expr@, bindings_view(old(bs)@)) is Some),
            r ==> bindings_view(final(bs)@) == match_pat(self@, expr@, bindings_view(old(bs)@))->0,
            extends(bindings_view(old(bs)@), bindings_view(final(bs)@)),
            r ==> forall|id: int| #[trigger] binds_id(self@, id, false) ==> lookup(bindings_view(final(bs)@), id) is Some,
        decreases self,
    {
        proof {
            if match_pat(self@, expr@, bindings_view(bs@)) is Some {
                lemma_match_binds(self@, expr@, bindings_view(bs@));
            }
        }
        match self {
            RuleExpr::Literal(n) => match expr {
                Expr::Literal(m) => {
                    proof {
                        n.lemma_view_injective(*m);
                    }
                    *n == *m
                },
                _ => false,
            },
            RuleExpr::AnySubExpr(id) => insert_binding(bs, *id, expr),
            RuleExpr::AnyLiteral(id) => match expr {
                Expr::Literal(_) => insert_binding(bs, *id, expr),
                _ => false,
            },
            RuleExpr::AnyNonLiteral(id) => match expr {
                Expr::Literal(_) => false,
                _ => insert_binding(bs, *id, expr),
            },
            RuleExpr::Binary { left: left_rule, op: op_rule, right: right_rule } => match expr {
                Expr::Binary { left, op, right } => {
                    if *op != *op_rule {
                        false
                    } else if !left_rule.match_expr_inner(left, bs) {
                        false
                    } else {
                        right_rule.match_expr_inner(right, bs)
                    }
                },
                _ => false,
            },
            RuleExpr::Unary { op: op_rule, right: right_rule } => match expr {
                Expr::Unary { op, right } => {
                    if *op != *op_rule {
                        false
                    } else {
                        right_rule.match_expr_inner(right, bs)
                    }
                },
                _ => false,
            },
            RuleExpr::Error => false,
        }
    }

    /// Tries to match this pattern on `expr`.
    pub fn match_expr(&self, expr: &Expr) -> (r: MatchResult)
        ensures
            r.matches == (match_bindings(self@, expr@) is Some),
            r.matches ==> bindings_view(r.matched_exprs@) == match_bindings(self@, expr@)->0,
            r.matches ==> forall|id: int| #[trigger] binds_id(self@, id, false) ==> lookup(
                bindings_view(r.matched_exprs@),
                id,
            ) is Some,
    {
        let mut matched_exprs: Vec<(i32, Expr)> = Vec::new();
        proof {
            assert(bindings_view(matched_exprs@) =~= Seq::<(int, Term)>::empty());
        }
        let matches = self.match_expr_inner(expr, &mut matched_exprs);
        MatchResult { matches, matched_exprs }
    }

    /// Fills in the wildcards of this template with the bound expressions.
    pub fn write_expr(&self, matched_exprs: &Vec<(i32, Expr)>) -> (r: Expr)
        requires
            writable(self@, bindings_view(matched_exprs@)),
        ensures
            r@ == write_pat(self@, bindings_view(matched_exprs@)),
        decreases self,
    {
        match self {
            RuleExpr::Literal(n) => Expr::Literal(*n),
            RuleExpr::AnySubExpr(id) | RuleExpr::AnyLiteral(id) | RuleExpr::AnyNonLiteral(id) => {
                match find_binding(matched_exprs, *id) {
                    Some(e) => e.duplicate(),
                    None => Expr::Error,
                }
            },
            RuleExpr::Binary { left, op, right } => Expr::Binary {
                left: Box::new(left.write_expr(matched_exprs)),
                op: *op,
                right: Box::new(right.write_expr(matched_exprs)),
            },
            RuleExpr::Unary { op, right } => {
                match op {
                    UnaryOpKind::Minus => match &**right {
                        RuleExpr::Literal(n) => Expr::Literal(n.neg()),
                        RuleExpr::AnyLiteral(id) => match find_binding(matched_exprs, *id) {
                            Some(Expr::Literal(n)) => Expr::Literal(n.neg()),
                            _ => Expr::Error,
                        },
                        _ => Expr::Unary { op: *op, right: Box::new(right.write_expr(matched_exprs)) },
                    },
                    UnaryOpKind::Plus => right.write_expr(matched_exprs),
                }
            },
            RuleExpr::Error => Expr::Error,
        }
    }
}

fn insert_binding(bs: &mut Vec<(i32, Expr)>, id: i32, expr: &Expr) -> (r: bool)
    ensures
        r == (bind(bindings_view(old(bs)@), id as int, expr@) is Some),
        r ==> bindings_view(final(bs)@) == bind(bindings_view(old(bs)@), id as int, expr@)->0,
        extends(bindings_view(old(bs)@), bindings_view(final(bs)@)),
{
    match find_binding(bs, id) {
        Some(existing) => existing.equals(expr),
        None => {
            bs.push((id, expr.duplicate()));
            proof {
                assert(bindings_view(bs@) =~= bindings_view(old(bs)@).push((id as int, expr@)));
                assert forall|k: int| #[trigger] lookup(bindings_view(old(bs)@), k) is Some implies lookup(
                    bindings_view(bs@),
                    k,
                ) == lookup(bindings_view(old(bs)@), k) by {
                    lemma_lookup_push(bindings_view(old(bs)@), id as int, expr@, k);
                }
            }
            true
        },
    }
}


/// Every binding of `bs` is kept, unchanged, in `bs2`.
pub open spec fn extends(bs: Bindings, bs2: Bindings) -> bool {
    forall|k: int| #[trigger] lookup(bs, k) is Some ==> lookup(bs2, k) == lookup(bs, k)
}

/// Whether `p` holds a wildcard with this id (a literal wildcard, with
/// `literal_only`).
pub open spec fn binds_id(p: Pat, id: int, literal_only: bool) -> bool
    decreases p,
{
    match p {
        Pat::AnySubExpr(i) => !literal_only && i == id,
        Pat::AnyLiteral(i) => i == id,
        Pat::AnyNonLiteral(i) => !literal_only && i == id,
        Pat::Binary(l, _, r) => binds_id(*l, id, literal_only) || binds_id(*r, id, literal_only),
        Pat::Unary(_, r) => binds_id(*r, id, literal_only),
        _ => false,
    }
}

/// A successful match binds every wildcard id of its pattern.
pub proof fn lemma_match_binds(p: Pat, e: Term, bs: Bindings)
    requires
        match_pat(p, e, bs) is Some,
    ensures
        forall|id: int| #[trigger] binds_id(p, id, false) ==> lookup(match_pat(p, e, bs)->0, id) is Some,
    decreases p,
{
    let bs2 = match_pat(p, e, bs)->0;
    match p {
        Pat::AnySubExpr(i) => {
            lemma_lookup_push(bs, i, e, i);
            assert(bs2 == bind(bs, i, e)->0);
            assert(lookup(bs2, i) is Some);
            assert forall|id: int| #[trigger] binds_id(p, id, false) implies lookup(bs2, id) is Some by {
                assert(id == i);
            }
        },
        Pat::AnyLiteral(i) => {
            lemma_lookup_push(bs, i, e, i);
            assert(bs2 == bind(bs, i, e)->0);
            assert(lookup(bs2, i) is Some);
            assert forall|id: int| #[trigger] binds_id(p, id, false) implies lookup(bs2, id) is Some by {
                assert(id == i);
            }
        },
        Pat::AnyNonLiteral(i) => {
            lemma_lookup_push(bs, i, e, i);
            assert(bs2 == bind(bs, i, e)->0);
            assert(lookup(bs2, i) is Some);
            assert forall|id: int| #[trigger] binds_id(p, id, false) implies lookup(bs2, id) is Some by {
                assert(id == i);
            }
        },
        Pat::Binary(pl, op, pr) => {
            if let Term::Binary(el, eop, er) = e {
                let mid = match_pat(*pl, *el, bs)->0;
                assert(bs2 == match_pat(*pr, *er, mid)->0);
                lemma_match_binds(*pl, *el, bs);
                lemma_match_binds(*pr, *er, mid);
                lemma_match_extends(*pr, *er, mid);
                assert forall|id: int| #[trigger] binds_id(p, id, false) implies lookup(bs2, id) is Some by {
                    if binds_id(*pl, id, false) {
                        assert(lookup(mid, id) is Some);
                        assert(lookup(bs2, id) == lookup(mid, id));
                    } else {
                        assert(binds_id(*pr, id, false));
                    }
                }
            }
        },
        Pat::Unary(op, pr) => {
            if let Term::Unary(eop, er) = e {
                assert(bs2 == match_pat(*pr, *er, bs)->0);
                lemma_match_binds(*pr, *er, bs);
                assert forall|id: int| #[trigger] binds_id(p, id, false) implies lookup(bs2, id) is Some by {
                    assert(binds_id(*pr, id, false));
                }
            }
        },
        _ => {},
    }
}

/// A pattern that writes back what it matches: no unary `+`, and no
/// negation of a literal or of a literal wildcard (those fold when written).
pub open spec fn plain(p: Pat) -> bool
    decreases p,
{
    match p {
        Pat::Binary(l, _, r) => plain(*l) && plain(*r),
        Pat::Unary(op, r) => op == UnaryOpKind::Minus && !(*r is Literal) && !(*r is AnyLiteral) && plain(*r),
        _ => true,
    }
}

proof fn lemma_lookup_push(bs: Bindings, id: int, t: Term, k: int)
    ensures
        lookup(bs.push((id, t)), k) == (if lookup(bs, k) is Some {
            lookup(bs, k)
        } else if k == id {
            Some(t)
        } else {
            None
        }),
    decreases bs.len(),
{
    if bs.len() > 0 {
        assert(bs.push((id, t)).drop_first() =~= bs.drop_first().push((id, t)));
        lemma_lookup_push(bs.drop_first(), id, t, k);
    } else {
        assert(bs.push((id, t)).drop_first() =~= bs);
    }
}

/// A match only adds bindings.
pub proof fn lemma_match_extends(p: Pat, e: Term, bs: Bindings)
    requires
        match_pat(p, e, bs) is Some,
    ensures
        extends(bs, match_pat(p, e, bs)->0),
    decreases p,
{
    match p {
        Pat::AnySubExpr(id) | Pat::AnyLiteral(id) | Pat::AnyNonLiteral(id) => {
            assert forall|k: int| #[trigger] lookup(bs, k) is Some implies lookup(
                match_pat(p, e, bs)->0,
                k,
            ) == lookup(bs, k) by {
                lemma_lookup_push(bs, id, e, k);
            }
        },
        Pat::Binary(pl, op, pr) => {
            if let Term::Binary(el, eop, er) = e {
                let mid = match_pat(*pl, *el, bs)->0;
                lemma_match_extends(*pl, *el, bs);
                lemma_match_extends(*pr, *er, mid);
            }
        },
        Pat::Unary(op, pr) => {
            if let Term::Unary(eop, er) = e {
                lemma_match_extends(*pr, *er, bs);
            }
        },
        _ => {},
    }
}

proof fn lemma_match_then_write(p: Pat, e: Term, bs: Bindings, later: Bindings)
    requires
        match_pat(p, e, bs) is Some,
        extends(match_pat(p, e, bs)->0, later),
        plain(p),
    ensures
        writable(p, later),
        write_pat(p, later) == e,
    decreases p,
{
    let bs2 = match_pat(p, e, bs)->0;
    match p {
        Pat::AnySubExpr(id) | Pat::AnyLiteral(id) | Pat::AnyNonLiteral(id) => {
            lemma_lookup_push(bs, id, e, id);
            assert(lookup(bs2, id) == Some(e));
            assert(lookup(later, id) == Some(e));
        },
        Pat::Binary(pl, op, pr) => {
            if let Term::Binary(el, eop, er) = e {
                let mid = match_pat(*pl, *el, bs)->0;
                lemma_match_extends(*pr, *er, mid);
                assert(extends(mid, later));
                lemma_match_then_write(*pl, *el, bs, later);
                lemma_match_then_write(*pr, *er, mid, later);
            }
        },
        Pat::Unary(op, pr) => {
            if let Term::Unary(eop, er) = e {
                lemma_match_then_write(*pr, *er, bs, later);
            }
        },
        _ => {},
    }
}

/// Writing a pattern with the bindings of its own successful match gives
/// back the matched term, for a pattern that writes back what it matches.
pub proof fn match_write_inverse(p: Pat, e: Term)
    requires
        match_bindings(p, e) is Some,
        plain(p),
    ensures
        writable(p, match_bindings(p, e)->0),
        write_pat(p, match_bindings(p, e)->0) == e,
{
    lemma_match_then_write(p, e, seq![], match_bindings(p, e)->0);
}

} // verus!
