//! Conjunctions: two or more `&`-joined operands, folded to the left.

use vstd::prelude::*;

use crate::assignment::Assignment;
use crate::formula::in_brackets::InBrackets;
use crate::formula::not::Not;
use crate::formula::{atom, in_brackets, not};
use crate::formula::{
    Form, form_eval, form_vars, spec_parse_and, spec_parse_and_operand, spec_parse_and_rest,
};
use crate::formula::atom::Atom;
use crate::names::{name_seq, name_set, strict_sorted};

verus! {

#[derive(Debug, PartialEq, Eq)]
pub enum AndOperand {
    Atom(Atom),
    InBrackets(InBrackets),
    Not(Not),
    And(Box<And>),
}

#[derive(Debug, PartialEq, Eq)]
pub struct And(pub AndOperand, pub AndOperand);

impl View for AndOperand {
    type V = Form;

    open spec fn view(&self) -> Form
        decreases self,
    {
        match self {
            AndOperand::Atom(a) => a@,
            AndOperand::InBrackets(b) => b@,
            AndOperand::Not(m) => m@,
            AndOperand::And(c) => (**c)@,
        }
    }
}

impl View for And {
    type V = Form;

    open spec fn view(&self) -> Form
        decreases self,
    {
        Form::Conj(Box::new(self.0@), Box::new(self.1@))
    }
}

impl AndOperand {
    /// The truth value of the operand under `ctx`.
    pub fn eval(&self, ctx: &Assignment) -> (r: bool)
        requires
            form_vars(self@) <= ctx@.dom(),
        ensures
            r == form_eval(self@, ctx@),
        decreases *self,
    {
        match self {
            AndOperand::Atom(a) => a.eval(ctx),
            AndOperand::InBrackets(b) => b.eval(ctx),
            AndOperand::Not(m) => m.eval(ctx),
            AndOperand::And(c) => c.eval(ctx),
        }
    }

    /// Add the operand's variables to a sorted collection of names.
    pub fn collect_vars(&self, acc: &mut Vec<String>)
        requires
            strict_sorted(name_seq(old(acc)@)),
        ensures
            strict_sorted(name_seq(final(acc)@)),
            name_set(final(acc)@) == name_set(old(acc)@).union(form_vars(self@)),
        decreases *self,
    {
        match self {
            AndOperand::Atom(a) => a.collect_vars(acc),
            AndOperand::InBrackets(b) => b.collect_vars(acc),
            AndOperand::Not(m) => m.collect_vars(acc),
            AndOperand::And(c) => c.collect_vars(acc),
        }
    }
}

impl And {
    /// The truth value of the conjunction under `ctx`.
    pub fn eval(&self, ctx: &Assignment) -> (r: bool)
        requires
            form_vars(self@) <= ctx@.dom(),
        ensures
            r == form_eval(self@, ctx@),
        decreases *self,
    {
        let left = self.0.eval(ctx);
        let right = self.1.eval(ctx);
        left && right
    }

    /// Add the conjunction's variables to a sorted collection of names.
    pub fn collect_vars(&self, acc: &mut Vec<String>)
        requires
            strict_sorted(name_seq(old(acc)@)),
        ensures
            strict_sorted(name_seq(final(acc)@)),
            name_set(final(acc)@) == name_set(old(acc)@).union(form_vars(self@)),
        decreases *self,
    {
        self.0.collect_vars(acc);
        self.1.collect_vars(acc);
        proof {
            assert(name_set(acc@) =~= name_set(old(acc)@).union(form_vars(self@)));
        }
    }

    /// The variables of the conjunction, in ascending order.
    pub fn variables(&self) -> (r: Vec<String>)
        ensures
            strict_sorted(name_seq(r@)),
            name_set(r@) == form_vars(self@),
    {
        let mut acc: Vec<String> = Vec::new();
        self.collect_vars(&mut acc);
        proof {
            assert(name_set(acc@) =~= form_vars(self@));
        }
        acc
    }
}

/// Parse one conjunction operand at `pos`: a negation, a bracketed
/// expression, or an atom.
pub(crate) fn parse_higher_priority_operand(s: &str, pos: usize) -> (r: Option<(usize, AndOperand)>)
    requires
        pos <= s@.len(),
    ensures
        match r {
            Some((p, v)) => {
                &&& spec_parse_and_operand(s@, pos as int) == Some((p as int, v@))
                &&& pos < p <= s@.len()
            },
            None => spec_parse_and_operand(s@, pos as int) is None,
        },
    decreases s@.len() - pos, 3int,
{
    match not::parse_at(s, pos) {
        Some((p, m)) => Some((p, AndOperand::Not(m))),
        None => match in_brackets::parse_at(s, pos) {
            Some((p, b)) => Some((p, AndOperand::InBrackets(b))),
            None => match atom::parse_at(s, pos) {
                Some((p, a)) => Some((p, AndOperand::Atom(a))),
                None => None,
            },
        },
    }
}

/// Parse a conjunction at `pos`.
pub(crate) fn parse_at(s: &str, pos: usize) -> (r: Option<(usize, And)>)
    requires
        pos <= s@.len(),
    ensures
        match r {
            Some((p, v)) => {
                &&& spec_parse_and(s@, pos as int) == Some((p as int, v@))
                &&& pos < p <= s@.len()
            },
            None => spec_parse_and(s@, pos as int) is None,
        },
    decreases s@.len() - pos, 4int,
{
    let n = s.unicode_len();
    let (p1, op1) = match parse_higher_priority_operand(s, pos) {
        Some(r1) => r1,
        None => {
            return None;
        },
    };
    if !(p1 < n && s.get_char(p1) == '&') {
        return None;
    }
    let (p2, op2) = match parse_higher_priority_operand(s, p1 + 1) {
        Some(r2) => r2,
        None => {
            return None;
        },
    };
    let mut acc = And(op1, op2);
    let mut p = p2;
    loop
        invariant
            pos < p <= n,
            n == s@.len(),
            spec_parse_and(s@, pos as int) == Some(spec_parse_and_rest(s@, p as int, acc@)),
        ensures
            pos < p <= n,
            n == s@.len(),
            spec_parse_and(s@, pos as int) == Some((p as int, acc@)),
        decreases n - p,
    {
        if p == n {
            break ;
        }
        if s.get_char(p) != '&' {
            break ;
        }
        match parse_higher_priority_operand(s, p + 1) {
            Some((p3, op3)) => {
                acc = And(AndOperand::And(Box::new(acc)), op3);
                p = p3;
            },
            None => {
                break ;
            },
        }
    }
    Some((p, acc))
}

/// Parse a conjunction at the start of `code`, returning the unconsumed
/// remainder beside it.
pub fn parse(code: &str) -> (r: Option<(String, And)>)
    ensures
        match r {
            Some((rest, v)) => {
                &&& spec_parse_and(code@, 0) matches Some(q)
                &&& v@ == spec_parse_and(code@, 0)->Some_0.1
                &&& rest@ == code@.subrange(spec_parse_and(code@, 0)->Some_0.0, code@.len() as int)
            },
            None => spec_parse_and(code@, 0) is None,
        },
{
    match parse_at(code, 0) {
        Some((p, v)) => {
            let rest = code.substring_char(p, code.unicode_len()).to_owned();
            Some((rest, v))
        },
        None => None,
    }
}

} // verus!
