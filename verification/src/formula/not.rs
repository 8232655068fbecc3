//! Negations: `!` applied to an atom, a bracketed group, or another
//! negation.

use vstd::prelude::*;

use crate::assignment::Assignment;
use crate::formula::in_brackets::InBrackets;
use crate::formula::{atom, in_brackets};
use crate::formula::{Form, form_eval, form_vars, spec_parse_not};
use crate::formula::atom::Atom;
use crate::names::{name_seq, name_set, strict_sorted};

verus! {

#[derive(Debug, PartialEq, Eq)]
pub enum NotOperand {
    Atom(Atom),
    InBrackets(InBrackets),
    Not(Box<Not>),
}

#[derive(Debug, PartialEq, Eq)]
pub struct Not(pub NotOperand);

impl View for NotOperand {
    type V = Form;

    open spec fn view(&self) -> Form
        decreases self,
    {
        match self {
            NotOperand::Atom(a) => a@,
            NotOperand::InBrackets(b) => b@,
            NotOperand::Not(n) => (**n)@,
        }
    }
}

impl View for Not {
    type V = Form;

    open spec fn view(&self) -> Form
        decreases self,
    {
        Form::Neg(Box::new(self.0@))
    }
}

impl NotOperand {
    /// The truth value of the operand under `ctx`.
    pub fn eval(&self, ctx: &Assignment) -> (r: bool)
        requires
            form_vars(self@) <= ctx@.dom(),
        ensures
            r == form_eval(self@, ctx@),
        decreases *self,
    {
        match self {
            NotOperand::Atom(a) => a.eval(ctx),
            NotOperand::InBrackets(b) => b.eval(ctx),
            NotOperand::Not(n) => n.eval(ctx),
        }
    }

    /// Add the operand's variables to a sorted collection of names.
    pub fn collect_vars(&self, acc: &mut Vec<String>)
        requires
            strict_sorted(name_seq(old(acc)@)),
        ensures
            strict_sorted(name_seq(final(acc)@)),
            name_set(final(acc)@) == name_set(old(acc)@).union(form_vars(self@)),
        decreases *self,
    {
        match self {
            NotOperand::Atom(a) => a.collect_vars(acc),
            NotOperand::InBrackets(b) => b.collect_vars(acc),
            NotOperand::Not(n) => n.collect_vars(acc),
        }
    }
}

impl Not {
    /// The truth value of the negation under `ctx`.
    pub fn eval(&self, ctx: &Assignment) -> (r: bool)
        requires
            form_vars(self@) <= ctx@.dom(),
        ensures
            r == form_eval(self@, ctx@),
        decreases *self,
    {
        !self.0.eval(ctx)
    }

    /// Add the negation's variables to a sorted collection of names.
    pub fn collect_vars(&self, acc: &mut Vec<String>)
        requires
            strict_sorted(name_seq(old(acc)@)),
        ensures
            strict_sorted(name_seq(final(acc)@)),
            name_set(final(acc)@) == name_set(old(acc)@).union(form_vars(self@)),
        decreases *self,
    {
        self.0.collect_vars(acc);
    }

    /// The variables of the negation, in ascending order.
    pub fn variables(&self) -> (r: Vec<String>)
        ensures
            strict_sorted(name_seq(r@)),
            name_set(r@) == form_vars(self@),
    {
        let mut acc: Vec<String> = Vec::new();
        self.collect_vars(&mut acc);
        proof {
            assert(name_set(acc@) =~= form_vars(self@));
        }
        acc
    }
}

/// Parse a negation at `pos`.
pub(crate) fn parse_at(s: &str, pos: usize) -> (r: Option<(usize, Not)>)
    requires
        pos <= s@.len(),
    ensures
        match r {
            Some((p, v)) => {
                &&& spec_parse_not(s@, pos as int) == Some((p as int, v@))
                &&& pos < p <= s@.len()
            },
            None => spec_parse_not(s@, pos as int) is None,
        },
    decreases s@.len() - pos, 2int,
{
    let n = s.unicode_len();
    if pos < n && s.get_char(pos) == '!' {
        match atom::parse_at(s, pos + 1) {
            Some((p, a)) => Some((p, Not(NotOperand::Atom(a)))),
            None => match in_brackets::parse_at(s, pos + 1) {
                Some((p, b)) => Some((p, Not(NotOperand::InBrackets(b)))),
                None => match parse_at(s, pos + 1) {
                    Some((p, m)) => Some((p, Not(NotOperand::Not(Box::new(m))))),
                    None => None,
                },
            },
        }
    } else {
        None
    }
}

/// Parse a negation at the start of `code`, returning the unconsumed
/// remainder beside it.
pub fn parse(code: &str) -> (r: Option<(String, Not)>)
    ensures
        match r {
            Some((rest, v)) => {
                &&& spec_parse_not(code@, 0) matches Some(q)
                &&& v@ == spec_parse_not(code@, 0)->Some_0.1
                &&& rest@ == code@.subrange(spec_parse_not(code@, 0)->Some_0.0, code@.len() as int)
            },
            None => spec_parse_not(code@, 0) is None,
        },
{
    match parse_at(code, 0) {
        Some((p, v)) => {
            let rest = code.substring_char(p, code.unicode_len()).to_owned();
            Some((rest, v))
        },
        None => None,
    }
}

} // verus!
