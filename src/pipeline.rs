//! From input text to the text of the expression and of its derivative.

use vstd::prelude::*;
use vstd::string::StringExecFns;
use crate::lexer::{lex, lex_spec};
use crate::parser::{parse_tokens, term_text, texts, Expr, ExprVisitor, Parser, Term};
use crate::transformations::derivative::{deriv, derivative};
use crate::transformations::prettify::{prettify, prettify_rules, prettify_warnings, Prettify};
use crate::transformations::simplify::{simplify, simplify_rules, simplify_warnings, Simplify};
use crate::transformations::{normal, visit_all_keeps_normal};

verus! {

/// The tree that `input` parses to, simplified.
pub open spec fn simplified_input(input: Seq<char>) -> Term {
    simplify(parse_tokens(lex_spec(input)).0)
}

/// How a simplified tree is shown: prettified, then simplified again.
pub open spec fn display_form(t: Term) -> Term {
    simplify(prettify(t))
}

/// The derivative of a simplified tree, simplified, prettified and
/// simplified again.
pub open spec fn derivative_form(t: Term) -> Term {
    simplify(prettify(simplify(deriv(t))))
}

/// Showing a shown form again changes nothing: simplify, prettify and
/// simplify, done twice, is done once, wherever the shown form is a term
/// that neither rule set applies to at any node.
pub proof fn display_form_stable(t: Term)
    requires
        normal(simplify_rules(), display_form(simplify(t))),
        normal(prettify_rules(), display_form(simplify(t))),
    ensures
        display_form(display_form(simplify(t))) == display_form(simplify(t)),
{
    let n = display_form(simplify(t));
    visit_all_keeps_normal(prettify_rules(), n);
    visit_all_keeps_normal(simplify_rules(), n);
}

/// The iteration-cap warnings of showing a simplified tree.
pub open spec fn display_warnings(t: Term) -> Seq<Seq<char>> {
    prettify_warnings(t) + simplify_warnings(prettify(t))
}

/// The iteration-cap warnings of showing a derivative `d`.
pub open spec fn derivative_warnings(d: Term) -> Seq<Seq<char>> {
    simplify_warnings(d) + prettify_warnings(simplify(d)) + simplify_warnings(prettify(simplify(d)))
}

/// The iteration-cap warnings of the whole pipeline on `input`.
pub open spec fn input_warnings(input: Seq<char>) -> Seq<Seq<char>> {
    let parsed = parse_tokens(lex_spec(input)).0;
    simplify_warnings(parsed) + display_warnings(simplify(parsed)) + derivative_warnings(
        deriv(simplify(parsed)),
    )
}

pub open spec fn msg_no_input() -> Seq<char> {
    "no input found, skipping"@
}

/// What `process` reports for an input with tokens.
pub struct Outcome {
    /// The input as given.
    pub input: String,
    /// The text of the simplified, prettified input.
    pub parsed_as: String,
    /// The text of its derivative.
    pub derivative: String,
    /// The parser's diagnostics.
    pub errors: Vec<String>,
    /// One warning for each node where a rule set was stopped by the
    /// iteration cap.
    pub warnings: Vec<String>,
}

/// Parses `input`; the parser's diagnostics come with the tree. Input
/// without tokens is an error.
pub fn parse_expression(input: &str) -> (r: Result<(Expr, Vec<String>), String>)
    ensures
        match r {
            Ok((e, errs)) => lex_spec(input@).len() > 0 && e@ == parse_tokens(lex_spec(input@)).0 && texts(
                errs@,
            ) == parse_tokens(lex_spec(input@)).1,
            Err(msg) => lex_spec(input@).len() == 0 && msg@ == msg_no_input(),
        },
{
    let tokens = lex(input);
    if tokens.len() == 0 {
        return Err(String::from_str("no input found, skipping"));
    }
    let mut parser = Parser::new(tokens);
    let ast = parser.parse();
    let errors = clone_strings(parser.errors());
    Ok((ast, errors))
}

fn clone_strings(v: &Vec<String>) -> (r: Vec<String>)
    ensures
        texts(r@) == texts(v@),
{
    let mut out: Vec<String> = Vec::new();
    let mut i: usize = 0;
    while i < v.len()
        invariant
            i <= v@.len(),
            texts(out@) =~= texts(v@.subrange(0, i as int)),
        decreases v@.len() - i,
    {
        let ghost before = out@;
        let c = v[i].clone();
        out.push(c);
        i = i + 1;
        proof {
            assert(v@.subrange(0, i as int) =~= v@.subrange(0, i - 1).push(v@[i - 1]));
            assert(texts(out@) =~= texts(before).push(c@));
            assert(texts(v@.subrange(0, i as int)) =~= texts(v@.subrange(0, i - 1)).push(v@[i - 1]@));
        }
    }
    proof {
        assert(v@.subrange(0, v@.len() as int) =~= v@);
    }
    out
}

/// The text of a simplified tree as shown (see `display_form`); the
/// iteration-cap warnings go to `warnings`.
pub fn parsed_as_text(simplified: &Expr, warnings: &mut Vec<String>) -> (r: String)
    ensures
        r@ == term_text(display_form(simplified@)),
        texts(final(warnings)@) == texts(old(warnings)@) + display_warnings(simplified@),
{
    let mut shown = simplified.duplicate();
    Prettify.visit_reporting(&mut shown, warnings);
    Simplify.visit_reporting(&mut shown, warnings);
    proof {
        assert(texts(warnings@) =~= texts(old(warnings)@) + display_warnings(simplified@));
    }
    shown.to_string()
}

/// The text of a derivative as shown: simplified, prettified and
/// simplified again; the iteration-cap warnings go to `warnings`.
pub fn shown_derivative(d: Expr, warnings: &mut Vec<String>) -> (r: String)
    ensures
        r@ == term_text(simplify(prettify(simplify(d@)))),
        texts(final(warnings)@) == texts(old(warnings)@) + derivative_warnings(d@),
{
    let ghost d0 = d@;
    let mut d = d;
    Simplify.visit_reporting(&mut d, warnings);
    Prettify.visit_reporting(&mut d, warnings);
    Simplify.visit_reporting(&mut d, warnings);
    proof {
        assert(texts(warnings@) =~= texts(old(warnings)@) + derivative_warnings(d0));
    }
    d.to_string()
}

/// The text of the derivative of a simplified tree (see `derivative_form`);
/// the iteration-cap warnings go to `warnings`.
pub fn derivative_text(simplified: &Expr, warnings: &mut Vec<String>) -> (r: String)
    ensures
        r@ == term_text(derivative_form(simplified@)),
        texts(final(warnings)@) == texts(old(warnings)@) + derivative_warnings(deriv(simplified@)),
{
    shown_derivative(derivative(simplified), warnings)
}

/// Parses `input`, and gives the text of the simplified, prettified input,
/// of its derivative, the parser's diagnostics and the iteration-cap
/// warnings. Input without tokens is reported as an error.
pub fn process(input: &str) -> (r: Result<Outcome, String>)
    ensures
        match r {
            Ok(o) => lex_spec(input@).len() > 0 && o.input@ == input@ && o.parsed_as@ == term_text(
                display_form(simplified_input(input@)),
            ) && o.derivative@ == term_text(derivative_form(simplified_input(input@))) && texts(
                o.errors@,
            ) == parse_tokens(lex_spec(input@)).1 && texts(o.warnings@) == input_warnings(input@),
            Err(msg) => lex_spec(input@).len() == 0 && msg@ == msg_no_input(),
        },
{
    match parse_expression(input) {
        Err(msg) => Err(msg),
        Ok((ast, errors)) => {
            let ghost parsed = ast@;
            let mut warnings: Vec<String> = Vec::new();
            let mut ast = ast;
            Simplify.visit_reporting(&mut ast, &mut warnings);
            let parsed_as = parsed_as_text(&ast, &mut warnings);
            let derivative = derivative_text(&ast, &mut warnings);
            proof {
                assert(texts(warnings@) =~= input_warnings(input@));
            }
            Ok(Outcome { input: String::from_str(input), parsed_as, derivative, errors, warnings })
        },
    }
}

} // verus!
