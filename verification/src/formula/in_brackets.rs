//! Bracketed groups: `(` expression `)`.

use vstd::prelude::*;

use crate::assignment::Assignment;
use crate::formula::expression;
use crate::formula::{Expression, Form, form_eval, form_vars, spec_parse_in_brackets};
use crate::names::{name_seq, name_set, strict_sorted};

verus! {

#[derive(Debug, PartialEq, Eq)]
pub struct InBrackets(pub Box<Expression>);

impl View for InBrackets {
    type V = Form;

    open spec fn view(&self) -> Form
        decreases self,
    {
        Form::Paren(Box::new((*self.0)@))
    }
}

impl InBrackets {
    /// The truth value of the bracketed expression under `ctx`.
    pub fn eval(&self, ctx: &Assignment) -> (r: bool)
        requires
            form_vars(self@) <= ctx@.dom(),
        ensures
            r == form_eval(self@, ctx@),
        decreases *self,
    {
        self.0.eval(ctx)
    }

    /// Add the group's variables to a sorted collection of names.
    pub fn collect_vars(&self, acc: &mut Vec<String>)
        requires
            strict_sorted(name_seq(old(acc)@)),
        ensures
            strict_sorted(name_seq(final(acc)@)),
            name_set(final(acc)@) == name_set(old(acc)@).union(form_vars(self@)),
        decreases *self,
    {
        self.0.collect_vars(acc);
    }

    /// The variables of the group, in ascending order.
    pub fn variables(&self) -> (r: Vec<String>)
        ensures
            strict_sorted(name_seq(r@)),
            name_set(r@) == form_vars(self@),
    {
        let mut acc: Vec<String> = Vec::new();
        self.collect_vars(&mut acc);
        proof {
            assert(name_set(acc@) =~= form_vars(self@));
        }
        acc
    }
}

/// Parse a bracketed expression at `pos`.
pub(crate) fn parse_at(s: &str, pos: usize) -> (r: Option<(usize, InBrackets)>)
    requires
        pos <= s@.len(),
    ensures
        match r {
            Some((p, v)) => {
                &&& spec_parse_in_brackets(s@, pos as int) == Some((p as int, v@))
                &&& pos < p <= s@.len()
            },
            None => spec_parse_in_brackets(s@, pos as int) is None,
        },
    decreases s@.len() - pos, 1int,
{
    let n = s.unicode_len();
    if pos < n && s.get_char(pos) == '(' {
        match expression::parse_at(s, pos + 1) {
            Some((p, e)) => {
                if p < n && s.get_char(p) == ')' {
                    Some((p + 1, InBrackets(Box::new(e))))
                } else {
                    None
                }
            },
            None => None,
        }
    } else {
        None
    }
}

/// Parse a bracketed expression at the start of `code`, returning the
/// unconsumed remainder beside it.
pub fn parse(code: &str) -> (r: Option<(String, InBrackets)>)
    ensures
        match r {
            Some((rest, v)) => {
                &&& spec_parse_in_brackets(code@, 0) matches Some(q)
                &&& v@ == spec_parse_in_brackets(code@, 0)->Some_0.1
                &&& rest@ == code@.subrange(
                    spec_parse_in_brackets(code@, 0)->Some_0.0,
                    code@.len() as int,
                )
            },
            None => spec_parse_in_brackets(code@, 0) is None,
        },
{
    match parse_at(code, 0) {
        Some((p, v)) => {
            let rest = code.substring_char(p, code.unicode_len()).to_owned();
            Some((rest, v))
        },
        None => None,
    }
}

} // verus!
