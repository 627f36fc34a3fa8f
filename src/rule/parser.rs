//! Parsing for rules in string format.

use vstd::prelude::*;
use vstd::string::StringExecFns;
use crate::num::{nat_text, num_text, push_nat, Num};
use crate::parser::{bin_op_text, texts, unary_op_text, BinOpKind, UnaryOpKind};
use crate::rule::lexer::{rule_infix_bp, rule_prefix_bp, rule_tokens_view, RuleTok, RuleToken};

verus! {

/// A pattern, or a template, over expressions.
#[derive(Debug)]
#[allow(inconsistent_fields)]
pub enum RuleExpr {
    Literal(Num),
    /// Matches any sub-expression.
    AnySubExpr(i32),
    /// Matches a literal only.
    AnyLiteral(i32),
    /// Matches anything but a literal.
    AnyNonLiteral(i32),
    Binary { left: Box<RuleExpr>, op: BinOpKind, right: Box<RuleExpr> },
    Unary { op: UnaryOpKind, right: Box<RuleExpr> },
    /// Stands where the parser met invalid syntax; matches nothing.
    Error,
}

/// The mathematical view of a `RuleExpr`.
pub enum Pat {
    Literal((int, int)),
    AnySubExpr(int),
    AnyLiteral(int),
    AnyNonLiteral(int),
    Binary(Box<Pat>, BinOpKind, Box<Pat>),
    Unary(UnaryOpKind, Box<Pat>),
    Error,
}

pub open spec fn pat_of(e: RuleExpr) -> Pat
    decreases e,
{
    match e {
        RuleExpr::Literal(n) => Pat::Literal(n@),
        RuleExpr::AnySubExpr(id) => Pat::AnySubExpr(id as int),
        RuleExpr::AnyLiteral(id) => Pat::AnyLiteral(id as int),
        RuleExpr::AnyNonLiteral(id) => Pat::AnyNonLiteral(id as int),
        RuleExpr::Binary { left, op, right } => Pat::Binary(
            Box::new(pat_of(*left)),
            op,
            Box::new(pat_of(*right)),
        ),
        RuleExpr::Unary { op, right } => Pat::Unary(op, Box::new(pat_of(*right))),
        RuleExpr::Error => Pat::Error,
    }
}

impl View for RuleExpr {
    type V = Pat;

    open spec fn view(&self) -> Pat {
        pat_of(*self)
    }
}

impl RuleExpr {
    /// Structural equality.
    pub fn equals(&self, other: &RuleExpr) -> (r: bool)
        ensures
            r == (self@ == other@),
        decreases self,
    {
        match (self, other) {
            (RuleExpr::Literal(a), RuleExpr::Literal(b)) => {
                proof {
                    a.lemma_view_injective(*b);
                }
                *a == *b
            },
            (RuleExpr::AnySubExpr(a), RuleExpr::AnySubExpr(b)) => *a == *b,
            (RuleExpr::AnyLiteral(a), RuleExpr::AnyLiteral(b)) => *a == *b,
            (RuleExpr::AnyNonLiteral(a), RuleExpr::AnyNonLiteral(b)) => *a == *b,
            (
                RuleExpr::Binary { left: l1, op: o1, right: r1 },
                RuleExpr::Binary { left: l2, op: o2, right: r2 },
            ) => *o1 == *o2 && l1.equals(l2) && r1.equals(r2),
            (RuleExpr::Unary { op: o1, right: r1 }, RuleExpr::Unary { op: o2, right: r2 }) => *o1
                == *o2 && r1.equals(r2),
            (RuleExpr::Error, RuleExpr::Error) => true,
            _ => false,
        }
    }
}

pub open spec fn id_text(id: int) -> Seq<char> {
    if id < 0 {
        seq!['-'] + nat_text((-id) as nat)
    } else {
        nat_text(id as nat)
    }
}

/// The text of a pattern: as for expressions, with wildcards written
/// `_<id>`, `_lit<id>` and `_nonlit<id>`.
pub open spec fn pat_text(p: Pat) -> Seq<char>
    decreases p,
{
    match p {
        Pat::Literal(v) => num_text(v),
        Pat::AnySubExpr(id) => seq!['_'] + id_text(id),
        Pat::AnyLiteral(id) => seq!['_', 'l', 'i', 't'] + id_text(id),
        Pat::AnyNonLiteral(id) => seq!['_', 'n', 'o', 'n', 'l', 'i', 't'] + id_text(id),
        Pat::Binary(l, op, r) => seq!['('] + pat_text(*l) + seq![' '] + bin_op_text(op) + seq![' '] + pat_text(*r)
            + seq![')'],
        Pat::Unary(op, r) => seq!['('] + unary_op_text(op) + pat_text(*r) + seq![')'],
        Pat::Error => seq!['e', 'r', 'r'],
    }
}

fn push_id(out: &mut String, id: i32)
    ensures
        final(out)@ == old(out)@ + id_text(id as int),
{
    if id < 0 {
        proof {
            reveal_strlit("-");
        }
        out.append("-");
        let ghost mid = out@;
        push_nat(out, (-(id as i64)) as u64);
        proof {
            assert(final(out)@ =~= old(out)@ + id_text(id as int));
        }
    } else {
        push_nat(out, id as u64);
    }
}

impl RuleExpr {
    /// Appends the text of this pattern (see `pat_text`).
    pub fn push_text(&self, out: &mut String)
        ensures
            final(out)@ == old(out)@ + pat_text(self@),
        decreases self,
    {
        proof {
            reveal_strlit("(");
            reveal_strlit(")");
            reveal_strlit(" ");
            reveal_strlit("err");
            reveal_strlit("_");
            reveal_strlit("_lit");
            reveal_strlit("_nonlit");
        }
        match self {
            RuleExpr::Literal(n) => n.push_text(out),
            RuleExpr::AnySubExpr(id) => {
                out.append("_");
                push_id(out, *id);
            },
            RuleExpr::AnyLiteral(id) => {
                out.append("_lit");
                push_id(out, *id);
            },
            RuleExpr::AnyNonLiteral(id) => {
                out.append("_nonlit");
                push_id(out, *id);
            },
            RuleExpr::Binary { left, op, right } => {
                out.append("(");
                left.push_text(out);
                out.append(" ");
                out.append(op.text());
                out.append(" ");
                right.push_text(out);
                out.append(")");
            },
            RuleExpr::Unary { op, right } => {
                out.append("(");
                out.append(op.text());
                right.push_text(out);
                out.append(")");
            },
            RuleExpr::Error => out.append("err"),
        }
        proof {
            assert(final(out)@ =~= old(out)@ + pat_text(self@));
        }
    }

    /// The text of this pattern (see `pat_text`).
    pub fn to_string(&self) -> (r: String)
        ensures
            r@ == pat_text(self@),
    {
        let mut out = String::new();
        self.push_text(&mut out);
        proof {
            assert(out@ =~= pat_text(self@));
        }
        out
    }
}

impl PartialEq for RuleExpr {
    fn eq(&self, other: &RuleExpr) -> (r: bool) {
        self.equals(other)
    }
}

impl vstd::std_specs::cmp::PartialEqSpecImpl for RuleExpr {
    open spec fn obeys_eq_spec() -> bool {
        true
    }

    open spec fn eq_spec(&self, other: &RuleExpr) -> bool {
        self@ == other@
    }
}

pub open spec fn rule_tok_at(ts: Seq<RuleTok>, p: int) -> RuleTok {
    if 0 <= p < ts.len() {
        ts[p]
    } else {
        RuleTok::Error
    }
}

pub open spec fn rule_next_pos(ts: Seq<RuleTok>, p: int) -> int {
    if p < ts.len() {
        p + 1
    } else {
        p
    }
}

pub open spec fn rule_bin_op_of(t: RuleTok) -> BinOpKind {
    match t {
        RuleTok::Plus => BinOpKind::Plus,
        RuleTok::Minus => BinOpKind::Minus,
        RuleTok::Asterisk => BinOpKind::Asterisk,
        RuleTok::Slash => BinOpKind::Slash,
        _ => BinOpKind::Exponent,
    }
}

pub open spec fn msg_expected_rule() -> Seq<char> {
    "unexpected token, expected a rule expression"@
}

pub open spec fn msg_expected_paren() -> Seq<char> {
    "unexpected token, expected a '(' token"@
}

pub type PatStep = (Pat, int, Seq<Seq<char>>);

/// As for expressions: prefix `-` folds into a literal, `+` is dropped.
pub open spec fn apply_rule_prefix(t: RuleTok, operand: Pat) -> Pat {
    if t is Plus {
        operand
    } else {
        match operand {
            Pat::Literal(v) => Pat::Literal((-v.0, v.1)),
            _ => Pat::Unary(UnaryOpKind::Minus, Box::new(operand)),
        }
    }
}

/// The grammar of expressions, with wildcards as further atoms.
pub open spec fn rule_parse_bp(ts: Seq<RuleTok>, p: int, min_bp: int) -> PatStep
    decreases ts.len() - p, 2int,
{
    let t = rule_tok_at(ts, p);
    if p < 0 || p > ts.len() {
        (Pat::Error, p, seq![])
    } else {
        let head: PatStep = if rule_prefix_bp(t) == -1 {
            rule_parse_atom(ts, p)
        } else {
            let r = rule_parse_bp(ts, p + 1, rule_prefix_bp(t));
            (apply_rule_prefix(t, r.0), r.1, r.2)
        };
        if head.1 < p || head.1 > ts.len() {
            head
        } else {
            let rest = rule_parse_infix(ts, head.0, head.1, min_bp);
            (rest.0, rest.1, head.2 + rest.2)
        }
    }
}

pub open spec fn rule_parse_infix(ts: Seq<RuleTok>, left: Pat, p: int, min_bp: int) -> PatStep
    decreases ts.len() - p, 0int,
{
    let t = rule_tok_at(ts, p);
    let bp = rule_infix_bp(t);
    if bp.0 < min_bp || p < 0 || p >= ts.len() {
        (left, p, seq![])
    } else {
        let r = rule_parse_bp(ts, p + 1, bp.1);
        let node = Pat::Binary(Box::new(left), rule_bin_op_of(t), Box::new(r.0));
        if r.1 <= p || r.1 > ts.len() {
            (node, r.1, r.2)
        } else {
            let rest = rule_parse_infix(ts, node, r.1, min_bp);
            (rest.0, rest.1, r.2 + rest.2)
        }
    }
}

pub open spec fn rule_parse_atom(ts: Seq<RuleTok>, p: int) -> PatStep
    decreases ts.len() - p, 1int,
{
    let t = rule_tok_at(ts, p);
    if p < 0 || p > ts.len() {
        (Pat::Error, p, seq![])
    } else {
        match t {
            RuleTok::Literal(v) => (Pat::Literal(v), rule_next_pos(ts, p), seq![]),
            RuleTok::AnySubExpr(id) => (Pat::AnySubExpr(id), rule_next_pos(ts, p), seq![]),
            RuleTok::AnyLiteral(id) => (Pat::AnyLiteral(id), rule_next_pos(ts, p), seq![]),
            RuleTok::AnyNonLiteral(id) => (Pat::AnyNonLiteral(id), rule_next_pos(ts, p), seq![]),
            RuleTok::OpenParen => {
                let inner = rule_parse_bp(ts, p + 1, 0);
                if rule_tok_at(ts, inner.1) is CloseParen {
                    (inner.0, rule_next_pos(ts, inner.1), inner.2)
                } else {
                    (Pat::Error, rule_next_pos(ts, inner.1), inner.2 + seq![msg_expected_paren()])
                }
            },
            _ => (Pat::Error, rule_next_pos(ts, p), seq![msg_expected_rule()]),
        }
    }
}

/// The pattern that a whole rule token sequence spells; tokens after it
/// are ignored.
pub open spec fn parse_rule_tokens(ts: Seq<RuleTok>) -> PatStep {
    rule_parse_bp(ts, 0, 0)
}

/// The pattern that a rule token sequence spells from position `p`.
pub open spec fn parse_rule_from(ts: Seq<RuleTok>, p: int) -> PatStep {
    rule_parse_bp(ts, p, 0)
}

/// A Pratt parser over rule tokens.
pub struct RuleParser {
    tokens: Vec<RuleToken>,
    pos: usize,
    errors: Vec<String>,
}

impl RuleParser {
    pub closed spec fn toks(&self) -> Seq<RuleTok> {
        rule_tokens_view(self.tokens@)
    }

    pub closed spec fn position(&self) -> int {
        self.pos as int
    }

    pub closed spec fn diagnostics(&self) -> Seq<Seq<char>> {
        texts(self.errors@)
    }

    pub closed spec fn wf(&self) -> bool {
        self.pos <= self.tokens@.len()
    }

    pub fn new(tokens: Vec<RuleToken>) -> (r: RuleParser)
        ensures
            r.wf(),
            r.toks() == rule_tokens_view(tokens@),
            r.position() == 0,
            r.diagnostics() == Seq::<Seq<char>>::empty(),
    {
        let r = RuleParser { tokens, pos: 0, errors: Vec::new() };
        proof {
            assert(r.diagnostics() =~= Seq::<Seq<char>>::empty());
        }
        r
    }

    pub fn parse(&mut self) -> (r: RuleExpr)
        requires
            old(self).wf(),
        ensures
            final(self).wf(),
            final(self).toks() == old(self).toks(),
            r@ == parse_rule_from(old(self).toks(), old(self).position()).0,
            final(self).diagnostics() == old(self).diagnostics() + parse_rule_from(
                old(self).toks(),
                old(self).position(),
            ).2,
    {
        self.parse_expr_bp(0)
    }

    pub fn errors(&self) -> (r: &Vec<String>)
        ensures
            texts(r@) == self.diagnostics(),
    {
        &self.errors
    }

    fn current_infix_bp(&self) -> (r: (i32, i32))
        requires
            self.wf(),
        ensures
            (r.0 as int, r.1 as int) == rule_infix_bp(rule_tok_at(self.toks(), self.position())),
    {
        if self.pos < self.tokens.len() {
            self.tokens[self.pos].get_infix_bp()
        } else {
            (-1, -1)
        }
    }

    fn current_prefix_bp(&self) -> (r: i32)
        requires
            self.wf(),
        ensures
            r as int == rule_prefix_bp(rule_tok_at(self.toks(), self.position())),
    {
        if self.pos < self.tokens.len() {
            self.tokens[self.pos].get_prefix_bp().1
        } else {
            -1
        }
    }

    fn eat_tok(&mut self) -> (r: RuleToken)
        requires
            old(self).wf(),
        ensures
            final(self).wf(),
            final(self).toks() == old(self).toks(),
            final(self).diagnostics() == old(self).diagnostics(),
            r@ == rule_tok_at(old(self).toks(), old(self).position()),
            final(self).position() == rule_next_pos(old(self).toks(), old(self).position()),
    {
        if self.pos < self.tokens.len() {
            let t = self.tokens[self.pos];
            self.pos = self.pos + 1;
            t
        } else {
            RuleToken::Error
        }
    }

    fn push_error(&mut self, msg: &str)
        ensures
            final(self).tokens == old(self).tokens,
            final(self).pos == old(self).pos,
            final(self).diagnostics() == old(self).diagnostics() + seq![msg@],
    {
        self.errors.push(String::from_str(msg));
        proof {
            assert(self.diagnostics() =~= old(self).diagnostics() + seq![msg@]);
        }
    }

    fn parse_expr_bp(&mut self, min_bp: i32) -> (r: RuleExpr)
        requires
            old(self).wf(),
            0 <= min_bp,
        ensures
            final(self).wf(),
            final(self).toks() == old(self).toks(),
            final(self).position() >= old(self).position(),
            ({
                let s = rule_parse_bp(old(self).toks(), old(self).position(), min_bp as int);
                r@ == s.0 && final(self).position() == s.1 && final(self).diagnostics()
                    == old(self).diagnostics() + s.2
            }),
        decreases old(self).toks().len() - old(self).position(), 2int,
    {
        let ghost ts = self.toks();
        let ghost p = self.position();
        let ghost e0 = self.diagnostics();
        let pbp = self.current_prefix_bp();
        let left = if pbp == -1 {
            self.parse_atom()
        } else {
            let prefix = self.eat_tok();
            let right = self.parse_expr_bp(pbp);
            match prefix {
                RuleToken::Plus => right,
                _ => match right {
                    RuleExpr::Literal(n) => RuleExpr::Literal(n.neg()),
                    _ => RuleExpr::Unary { op: UnaryOpKind::Minus, right: Box::new(right) },
                },
            }
        };
        let ghost head: PatStep = if rule_prefix_bp(rule_tok_at(ts, p)) == -1 {
            rule_parse_atom(ts, p)
        } else {
            let r = rule_parse_bp(ts, p + 1, rule_prefix_bp(rule_tok_at(ts, p)));
            (apply_rule_prefix(rule_tok_at(ts, p), r.0), r.1, r.2)
        };
        assert(left@ == head.0 && self.position() == head.1 && self.diagnostics() == e0 + head.2);
        let r = self.parse_infix(left, min_bp);
        proof {
            assert(self.diagnostics() =~= e0 + (head.2 + rule_parse_infix(ts, head.0, head.1, min_bp as int).2));
        }
        r
    }

    fn parse_infix(&mut self, left: RuleExpr, min_bp: i32) -> (r: RuleExpr)
        requires
            old(self).wf(),
            0 <= min_bp,
        ensures
            final(self).wf(),
            final(self).toks() == old(self).toks(),
            final(self).position() >= old(self).position(),
            ({
                let s = rule_parse_infix(old(self).toks(), left@, old(self).position(), min_bp as int);
                r@ == s.0 && final(self).position() == s.1 && final(self).diagnostics()
                    == old(self).diagnostics() + s.2
            }),
        decreases old(self).toks().len() - old(self).position(), 0int,
    {
        let ghost ts = self.toks();
        let ghost p = self.position();
        let ghost e0 = self.diagnostics();
        let bp = self.current_infix_bp();
        if bp.0 < min_bp {
            proof {
                assert(self.diagnostics() =~= e0 + Seq::<Seq<char>>::empty());
            }
            left
        } else {
            let t = self.eat_tok();
            let op = match t {
                RuleToken::Plus => BinOpKind::Plus,
                RuleToken::Minus => BinOpKind::Minus,
                RuleToken::Asterisk => BinOpKind::Asterisk,
                RuleToken::Slash => BinOpKind::Slash,
                _ => BinOpKind::Exponent,
            };
            let right = self.parse_expr_bp(bp.1);
            let node = RuleExpr::Binary { left: Box::new(left), op, right: Box::new(right) };
            let r = self.parse_infix(node, min_bp);
            proof {
                let rb = rule_parse_bp(ts, p + 1, bp.1 as int);
                assert(self.diagnostics() =~= e0 + (rb.2 + rule_parse_infix(ts, node@, rb.1, min_bp as int).2));
            }
            r
        }
    }

    fn parse_atom(&mut self) -> (r: RuleExpr)
        requires
            old(self).wf(),
        ensures
            final(self).wf(),
            final(self).toks() == old(self).toks(),
            final(self).position() >= old(self).position(),
            ({
                let s = rule_parse_atom(old(self).toks(), old(self).position());
                r@ == s.0 && final(self).position() == s.1 && final(self).diagnostics()
                    == old(self).diagnostics() + s.2
            }),
        decreases old(self).toks().len() - old(self).position(), 1int,
    {
        let ghost ts = self.toks();
        let ghost p = self.position();
        let ghost e0 = self.diagnostics();
        let t = self.eat_tok();
        match t {
            RuleToken::Literal(n) => {
                proof {
                    assert(self.diagnostics() =~= e0 + Seq::<Seq<char>>::empty());
                }
                RuleExpr::Literal(n)
            },
            RuleToken::AnySubExpr(id) => {
                proof {
                    assert(self.diagnostics() =~= e0 + Seq::<Seq<char>>::empty());
                }
                RuleExpr::AnySubExpr(id)
            },
            RuleToken::AnyLiteral(id) => {
                proof {
                    assert(self.diagnostics() =~= e0 + Seq::<Seq<char>>::empty());
                }
                RuleExpr::AnyLiteral(id)
            },
            RuleToken::AnyNonLiteral(id) => {
                proof {
                    assert(self.diagnostics() =~= e0 + Seq::<Seq<char>>::empty());
                }
                RuleExpr::AnyNonLiteral(id)
            },
            RuleToken::OpenParen => {
                let inner = self.parse_expr_bp(0);
                let close = self.eat_tok();
                match close {
                    RuleToken::CloseParen => inner,
                    _ => {
                        self.push_error("unexpected token, expected a '(' token");
                        proof {
                            assert(self.diagnostics() =~= e0 + (rule_parse_bp(ts, p + 1, 0).2 + seq![
                                msg_expected_paren(),
                            ]));
                        }
                        RuleExpr::Error
                    },
                }
            },
            _ => {
                self.push_error("unexpected token, expected a rule expression");
                proof {
                    assert(self.diagnostics() =~= e0 + seq![msg_expected_rule()]);
                }
                RuleExpr::Error
            },
        }
    }
}

} // verus!
