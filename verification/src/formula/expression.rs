//! Whole expressions: the loosest grammar level.

use vstd::prelude::*;

use crate::assignment::Assignment;
use crate::formula::and::And;
use crate::formula::in_brackets::InBrackets;
use crate::formula::not::Not;
use crate::formula::or::Or;
use crate::formula::{and, atom, in_brackets, not, or};
use crate::formula::{Form, form_eval, form_vars, spec_parse_expression};
use crate::formula::atom::Atom;
use crate::names::{name_seq, name_set, strict_sorted};

verus! {

#[derive(Debug, PartialEq, Eq)]
pub enum Expression {
    Atom(Atom),
    InBrackets(InBrackets),
    Not(Not),
    And(And),
    Or(Or),
}

impl View for Expression {
    type V = Form;

    open spec fn view(&self) -> Form
        decreases self,
    {
        match self {
            Expression::Atom(a) => a@,
            Expression::InBrackets(b) => b@,
            Expression::Not(m) => m@,
            Expression::And(c) => c@,
            Expression::Or(d) => d@,
        }
    }
}

impl Expression {
    /// The truth value of the expression under `ctx`.
    pub fn eval(&self, ctx: &Assignment) -> (r: bool)
        requires
            form_vars(self@) <= ctx@.dom(),
        ensures
            r == form_eval(self@, ctx@),
        decreases *self,
    {
        match self {
            Expression::Atom(a) => a.eval(ctx),
            Expression::InBrackets(b) => b.eval(ctx),
            Expression::Not(m) => m.eval(ctx),
            Expression::And(c) => c.eval(ctx),
            Expression::Or(d) => d.eval(ctx),
        }
    }

    /// Add the expression's variables to a sorted collection of names.
    pub fn collect_vars(&self, acc: &mut Vec<String>)
        requires
            strict_sorted(name_seq(old(acc)@)),
        ensures
            strict_sorted(name_seq(final(acc)@)),
            name_set(final(acc)@) == name_set(old(acc)@).union(form_vars(self@)),
        decreases *self,
    {
        match self {
            Expression::Atom(a) => a.collect_vars(acc),
            Expression::InBrackets(b) => b.collect_vars(acc),
            Expression::Not(m) => m.collect_vars(acc),
            Expression::And(c) => c.collect_vars(acc),
            Expression::Or(d) => d.collect_vars(acc),
        }
    }

    /// The variables of the expression, in ascending order.
    pub fn variables(&self) -> (r: Vec<String>)
        ensures
            strict_sorted(name_seq(r@)),
            name_set(r@) == form_vars(self@),
    {
        let mut acc: Vec<String> = Vec::new();
        self.collect_vars(&mut acc);
        proof {
            assert(name_set(acc@) =~= form_vars(self@));
        }
        acc
    }
}

/// Parse an expression at `pos`.
pub(crate) fn parse_at(s: &str, pos: usize) -> (r: Option<(usize, Expression)>)
    requires
        pos <= s@.len(),
    ensures
        match r {
            Some((p, v)) => {
                &&& spec_parse_expression(s@, pos as int) == Some((p as int, v@))
                &&& pos < p <= s@.len()
            },
            None => spec_parse_expression(s@, pos as int) is None,
        },
    decreases s@.len() - pos, 9int,
{
    match or::parse_at(s, pos) {
        Some((p, d)) => Some((p, Expression::Or(d))),
        None => match and::parse_at(s, pos) {
            Some((p, c)) => Some((p, Expression::And(c))),
            None => match not::parse_at(s, pos) {
                Some((p, m)) => Some((p, Expression::Not(m))),
                None => match in_brackets::parse_at(s, pos) {
                    Some((p, b)) => Some((p, Expression::InBrackets(b))),
                    None => match atom::parse_at(s, pos) {
                        Some((p, a)) => Some((p, Expression::Atom(a))),
                        None => None,
                    },
                },
            },
        },
    }
}

/// Parse an expression at the start of `code`, returning the unconsumed
/// remainder beside it.
pub fn parse(code: &str) -> (r: Option<(String, Expression)>)
    ensures
        match r {
            Some((rest, v)) => {
                &&& spec_parse_expression(code@, 0) matches Some(q)
                &&& v@ == spec_parse_expression(code@, 0)->Some_0.1
                &&& rest@ == code@.subrange(
                    spec_parse_expression(code@, 0)->Some_0.0,
                    code@.len() as int,
                )
            },
            None => spec_parse_expression(code@, 0) is None,
        },
{
    match parse_at(code, 0) {
        Some((p, v)) => {
            let rest = code.substring_char(p, code.unicode_len()).to_owned();
            Some((rest, v))
        },
        None => None,
    }
}

} // verus!
