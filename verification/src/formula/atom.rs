//! Atoms: variable names and boolean constants.

use vstd::prelude::*;

use crate::assignment::Assignment;
use crate::formula::{
    Form, form_eval, form_vars, lit_at, name_run, name_run_len, spec_parse_atom,
};
use crate::names::{name_seq, name_set, sorted_insert, strict_sorted};

verus! {

#[derive(Debug, PartialEq, Eq)]
pub enum Atom {
    Variable(String),
    Const(bool),
}

impl View for Atom {
    type V = Form;

    open spec fn view(&self) -> Form {
        match self {
            Atom::Variable(x) => Form::Var(x@),
            Atom::Const(c) => Form::Const(*c),
        }
    }
}

impl Atom {
    /// The truth value of the atom under `ctx`.
    pub fn eval(&self, ctx: &Assignment) -> (r: bool)
        requires
            form_vars(self@) <= ctx@.dom(),
        ensures
            r == form_eval(self@, ctx@),
    {
        match self {
            Atom::Variable(x) => {
                proof {
                    assert(form_vars(self@).contains(x@));
                }
                ctx.get(x.as_str()).unwrap()
            },
            Atom::Const(c) => *c,
        }
    }

    /// Add the atom's variables to a sorted collection of names.
    pub fn collect_vars(&self, acc: &mut Vec<String>)
        requires
            strict_sorted(name_seq(old(acc)@)),
        ensures
            strict_sorted(name_seq(final(acc)@)),
            name_set(final(acc)@) == name_set(old(acc)@).union(form_vars(self@)),
    {
        match self {
            Atom::Variable(x) => {
                sorted_insert(acc, x.as_str());
                proof {
                    assert(name_set(acc@) =~= name_set(old(acc)@).union(form_vars(self@)));
                }
            },
            Atom::Const(_) => {
                proof {
                    assert(name_set(acc@) =~= name_set(old(acc)@).union(form_vars(self@)));
                }
            },
        }
    }

    /// The variables of the atom, in ascending order.
    pub fn variables(&self) -> (r: Vec<String>)
        ensures
            strict_sorted(name_seq(r@)),
            name_set(r@) == form_vars(self@),
    {
        let mut acc: Vec<String> = Vec::new();
        self.collect_vars(&mut acc);
        proof {
            assert(name_set(acc@) =~= form_vars(self@));
        }
        acc
    }
}

/// Parse an atom at `pos`.
pub(crate) fn parse_at(s: &str, pos: usize) -> (r: Option<(usize, Atom)>)
    requires
        pos <= s@.len(),
    ensures
        match r {
            Some((p, a)) => {
                &&& spec_parse_atom(s@, pos as int) == Some((p as int, a@))
                &&& pos < p <= s@.len()
            },
            None => spec_parse_atom(s@, pos as int) is None,
        },
{
    let n = s.unicode_len();
    if pos < n && s.get_char(pos) == '0' {
        return Some((pos + 1, Atom::Const(false)));
    }
    if lit_at(s, pos, "false") {
        proof {
            reveal_strlit("false");
        }
        return Some((pos + 5, Atom::Const(false)));
    }
    if pos < n && s.get_char(pos) == '1' {
        return Some((pos + 1, Atom::Const(true)));
    }
    if lit_at(s, pos, "true") {
        proof {
            reveal_strlit("true");
        }
        return Some((pos + 4, Atom::Const(true)));
    }
    let k = name_run_len(s, pos);
    if k > 0 {
        let name = s.substring_char(pos, pos + k).to_owned();
        return Some((pos + k, Atom::Variable(name)));
    }
    proof {
        reveal_strlit("false");
        reveal_strlit("true");
    }
    None
}

/// Parse an atom at the start of `code`, returning the unconsumed remainder
/// beside it.
pub fn parse(code: &str) -> (r: Option<(String, Atom)>)
    ensures
        match r {
            Some((rest, a)) => {
                &&& spec_parse_atom(code@, 0) matches Some(q)
                &&& a@ == spec_parse_atom(code@, 0)->Some_0.1
                &&& rest@ == code@.subrange(spec_parse_atom(code@, 0)->Some_0.0, code@.len() as int)
            },
            None => spec_parse_atom(code@, 0) is None,
        },
{
    match parse_at(code, 0) {
        Some((p, a)) => {
            let rest = code.substring_char(p, code.unicode_len()).to_owned();
            Some((rest, a))
        },
        None => None,
    }
}

} // verus!
