//! Propositional formulas.
//!
//! The submodules hold the abstract syntax tree of the surface grammar and a
//! recursive-descent parser for it.  The mathematical model of every syntax
//! tree is a [`Form`]: a plain formula with the bracketing recorded, whose
//! evaluation and free-variable set are defined here once.
//!
//! Grammar, in order of loosest binding: disjunction `|`, conjunction `&`,
//! negation `!` (prefix, stackable), bracketed groups, and atoms (alphabetic
//! variable names and the constants `0`/`false`/`1`/`true`).  No whitespace
//! is accepted.  A parse consumes the longest prefix the grammar allows and
//! reports the unconsumed remainder.

pub mod and;
pub mod atom;
pub mod expression;
pub mod in_brackets;
pub mod not;
pub mod or;

pub use and::And;
pub use atom::Atom;
pub use expression::Expression;
pub use in_brackets::InBrackets;
pub use not::Not;
pub use or::Or;

use vstd::prelude::*;

verus! {

/// The mathematical shape of a formula: variable names are character
/// sequences, and a bracketed group is kept as an explicit node so that a
/// syntax tree and its model determine each other.
pub enum Form {
    Var(Seq<char>),
    Const(bool),
    Paren(Box<Form>),
    Neg(Box<Form>),
    Conj(Box<Form>, Box<Form>),
    Disj(Box<Form>, Box<Form>),
}

/// The truth value of a formula under an assignment of its variables.
pub open spec fn form_eval(f: Form, env: Map<Seq<char>, bool>) -> bool
    decreases f,
{
    match f {
        Form::Var(x) => env[x],
        Form::Const(c) => c,
        Form::Paren(g) => form_eval(*g, env),
        Form::Neg(g) => !form_eval(*g, env),
        Form::Conj(g, h) => form_eval(*g, env) && form_eval(*h, env),
        Form::Disj(g, h) => form_eval(*g, env) || form_eval(*h, env),
    }
}

/// The set of variable names occurring in a formula.
pub open spec fn form_vars(f: Form) -> Set<Seq<char>>
    decreases f,
{
    match f {
        Form::Var(x) => set![x],
        Form::Const(_) => Set::empty(),
        Form::Paren(g) => form_vars(*g),
        Form::Neg(g) => form_vars(*g),
        Form::Conj(g, h) => form_vars(*g).union(form_vars(*h)),
        Form::Disj(g, h) => form_vars(*g).union(form_vars(*h)),
    }
}

/// Evaluation reads only the variables of the formula: two assignments that
/// agree on them give the same value.
pub proof fn lemma_form_eval_agree(f: Form, e1: Map<Seq<char>, bool>, e2: Map<Seq<char>, bool>)
    requires
        forall|x: Seq<char>| #[trigger] form_vars(f).contains(x) ==> e1[x] == e2[x],
    ensures
        form_eval(f, e1) == form_eval(f, e2),
    decreases f,
{
    match f {
        Form::Var(x) => {
            assert(form_vars(f).contains(x));
        },
        Form::Const(_) => {},
        Form::Paren(g) => {
            assert(forall|x: Seq<char>| #[trigger] form_vars(*g).contains(x) ==> form_vars(
                f,
            ).contains(x));
            lemma_form_eval_agree(*g, e1, e2);
        },
        Form::Neg(g) => {
            assert(forall|x: Seq<char>| #[trigger] form_vars(*g).contains(x) ==> form_vars(
                f,
            ).contains(x));
            lemma_form_eval_agree(*g, e1, e2);
        },
        Form::Conj(g, h) => {
            assert(forall|x: Seq<char>| #[trigger] form_vars(*g).contains(x) ==> form_vars(
                f,
            ).contains(x));
            assert(forall|x: Seq<char>| #[trigger] form_vars(*h).contains(x) ==> form_vars(
                f,
            ).contains(x));
            lemma_form_eval_agree(*g, e1, e2);
            lemma_form_eval_agree(*h, e1, e2);
        },
        Form::Disj(g, h) => {
            assert(forall|x: Seq<char>| #[trigger] form_vars(*g).contains(x) ==> form_vars(
                f,
            ).contains(x));
            assert(forall|x: Seq<char>| #[trigger] form_vars(*h).contains(x) ==> form_vars(
                f,
            ).contains(x));
            lemma_form_eval_agree(*g, e1, e2);
            lemma_form_eval_agree(*h, e1, e2);
        },
    }
}

/// An ASCII letter, the only characters allowed in variable names.
pub open spec fn is_name_char(c: char) -> bool {
    ('a' <= c && c <= 'z') || ('A' <= c && c <= 'Z')
}

/// Length of the longest run of letters starting at `pos`.
pub open spec fn name_run(s: Seq<char>, pos: int) -> int
    decreases s.len() - pos,
{
    if pos < 0 || pos >= s.len() || !is_name_char(s[pos]) {
        0
    } else {
        1 + name_run(s, pos + 1)
    }
}

/// Whether `lit` occurs in `s` starting exactly at `pos`.
pub open spec fn has_lit(s: Seq<char>, pos: int, lit: Seq<char>) -> bool {
    &&& 0 <= pos
    &&& pos + lit.len() <= s.len()
    &&& forall|k: int| 0 <= k < lit.len() ==> s[pos + k] == lit[k]
}

// The parser specification.  Each function mirrors one alternation level of
// the grammar: it takes the input and a character position and returns the
// position after the parsed phrase together with its model, or `None` when
// the level does not match at `pos`.  Alternatives are tried in a fixed
// order and the first success wins, so the result is deterministic.
/// An atom: `0`, `false`, `1`, `true`, or a variable name.
pub open spec fn spec_parse_atom(s: Seq<char>, pos: int) -> Option<(int, Form)> {
    if 0 <= pos && pos < s.len() && s[pos] == '0' {
        Some((pos + 1, Form::Const(false)))
    } else if has_lit(s, pos, "false"@) {
        Some((pos + 5, Form::Const(false)))
    } else if 0 <= pos && pos < s.len() && s[pos] == '1' {
        Some((pos + 1, Form::Const(true)))
    } else if has_lit(s, pos, "true"@) {
        Some((pos + 4, Form::Const(true)))
    } else if name_run(s, pos) > 0 {
        Some((pos + name_run(s, pos), Form::Var(s.subrange(pos, pos + name_run(s, pos)))))
    } else {
        None
    }
}

/// A bracketed expression: `(` expression `)`.
pub open spec fn spec_parse_in_brackets(s: Seq<char>, pos: int) -> Option<(int, Form)>
    decreases s.len() - pos, 1int,
{
    if 0 <= pos && pos < s.len() && s[pos] == '(' {
        match spec_parse_expression(s, pos + 1) {
            Some(r) => if r.0 < s.len() && s[r.0] == ')' {
                Some((r.0 + 1, Form::Paren(Box::new(r.1))))
            } else {
                None
            },
            None => None,
        }
    } else {
        None
    }
}

/// A negation: `!` followed by an atom, a bracketed expression, or another
/// negation.
pub open spec fn spec_parse_not(s: Seq<char>, pos: int) -> Option<(int, Form)>
    decreases s.len() - pos, 2int,
{
    if 0 <= pos && pos < s.len() && s[pos] == '!' {
        match spec_parse_atom(s, pos + 1) {
            Some(r) => Some((r.0, Form::Neg(Box::new(r.1)))),
            None => match spec_parse_in_brackets(s, pos + 1) {
                Some(r) => Some((r.0, Form::Neg(Box::new(r.1)))),
                None => match spec_parse_not(s, pos + 1) {
                    Some(r) => Some((r.0, Form::Neg(Box::new(r.1)))),
                    None => None,
                },
            },
        }
    } else {
        None
    }
}

/// One operand of a conjunction: a negation, a bracketed expression, or an
/// atom.
pub open spec fn spec_parse_and_operand(s: Seq<char>, pos: int) -> Option<(int, Form)>
    decreases s.len() - pos, 3int,
{
    match spec_parse_not(s, pos) {
        Some(r) => Some(r),
        None => match spec_parse_in_brackets(s, pos) {
            Some(r) => Some(r),
            None => spec_parse_atom(s, pos),
        },
    }
}

/// Further `&`-joined operands, folded to the left onto `acc`.
pub open spec fn spec_parse_and_rest(s: Seq<char>, pos: int, acc: Form) -> (int, Form)
    decreases s.len() - pos, 5int,
{
    if 0 <= pos && pos < s.len() && s[pos] == '&' {
        match spec_parse_and_operand(s, pos + 1) {
            Some(r) => if pos + 1 <= r.0 && r.0 <= s.len() {
                spec_parse_and_rest(s, r.0, Form::Conj(Box::new(acc), Box::new(r.1)))
            } else {
                (pos, acc)
            },
            None => (pos, acc),
        }
    } else {
        (pos, acc)
    }
}

/// A conjunction of at least two operands, left-associated.
pub open spec fn spec_parse_and(s: Seq<char>, pos: int) -> Option<(int, Form)>
    decreases s.len() - pos, 4int,
{
    match spec_parse_and_operand(s, pos) {
        Some(r1) => if pos <= r1.0 && r1.0 < s.len() && s[r1.0] == '&' {
            match spec_parse_and_operand(s, r1.0 + 1) {
                Some(r2) => if r1.0 + 1 <= r2.0 && r2.0 <= s.len() {
                    Some(spec_parse_and_rest(s, r2.0, Form::Conj(Box::new(r1.1), Box::new(r2.1))))
                } else {
                    None
                },
                None => None,
            }
        } else {
            None
        },
        None => None,
    }
}

/// One operand of a disjunction: a conjunction, a negation, a bracketed
/// expression, or an atom.
pub open spec fn spec_parse_or_operand(s: Seq<char>, pos: int) -> Option<(int, Form)>
    decreases s.len() - pos, 6int,
{
    match spec_parse_and(s, pos) {
        Some(r) => Some(r),
        None => match spec_parse_not(s, pos) {
            Some(r) => Some(r),
            None => match spec_parse_in_brackets(s, pos) {
                Some(r) => Some(r),
                None => spec_parse_atom(s, pos),
            },
        },
    }
}

/// Further `|`-joined operands, folded to the left onto `acc`.
pub open spec fn spec_parse_or_rest(s: Seq<char>, pos: int, acc: Form) -> (int, Form)
    decreases s.len() - pos, 8int,
{
    if 0 <= pos && pos < s.len() && s[pos] == '|' {
        match spec_parse_or_operand(s, pos + 1) {
            Some(r) => if pos + 1 <= r.0 && r.0 <= s.len() {
                spec_parse_or_rest(s, r.0, Form::Disj(Box::new(acc), Box::new(r.1)))
            } else {
                (pos, acc)
            },
            None => (pos, acc),
        }
    } else {
        (pos, acc)
    }
}

/// A disjunction of at least two operands, left-associated.
pub open spec fn spec_parse_or(s: Seq<char>, pos: int) -> Option<(int, Form)>
    decreases s.len() - pos, 7int,
{
    match spec_parse_or_operand(s, pos) {
        Some(r1) => if pos <= r1.0 && r1.0 < s.len() && s[r1.0] == '|' {
            match spec_parse_or_operand(s, r1.0 + 1) {
                Some(r2) => if r1.0 + 1 <= r2.0 && r2.0 <= s.len() {
                    Some(spec_parse_or_rest(s, r2.0, Form::Disj(Box::new(r1.1), Box::new(r2.1))))
                } else {
                    None
                },
                None => None,
            }
        } else {
            None
        },
        None => None,
    }
}

/// A whole expression: the loosest level that matches at `pos`.
pub open spec fn spec_parse_expression(s: Seq<char>, pos: int) -> Option<(int, Form)>
    decreases s.len() - pos, 9int,
{
    match spec_parse_or(s, pos) {
        Some(r) => Some(r),
        None => match spec_parse_and(s, pos) {
            Some(r) => Some(r),
            None => match spec_parse_not(s, pos) {
                Some(r) => Some(r),
                None => match spec_parse_in_brackets(s, pos) {
                    Some(r) => Some(r),
                    None => spec_parse_atom(s, pos),
                },
            },
        },
    }
}

/// Whether a letter starts at `pos`.
pub(crate) fn name_char_at(s: &str, pos: usize) -> (r: bool)
    requires
        pos < s@.len(),
    ensures
        r == is_name_char(s@[pos as int]),
{
    let c = s.get_char(pos);
    ('a' <= c && c <= 'z') || ('A' <= c && c <= 'Z')
}

/// Length of the longest run of letters starting at `pos`.
pub(crate) fn name_run_len(s: &str, pos: usize) -> (r: usize)
    requires
        pos <= s@.len(),
    ensures
        r == name_run(s@, pos as int),
        pos + r <= s@.len(),
{
    let n = s.unicode_len();
    let mut i: usize = pos;
    loop
        invariant
            pos <= i <= n,
            n == s@.len(),
            name_run(s@, pos as int) == i - pos + name_run(s@, i as int),
        ensures
            pos <= i <= n,
            name_run(s@, i as int) == 0,
        decreases n - i,
    {
        if i == n {
            break ;
        }
        if !name_char_at(s, i) {
            break ;
        }
        i += 1;
    }
    i - pos
}

/// Whether `lit` occurs in `s` starting exactly at `pos`.
pub(crate) fn lit_at(s: &str, pos: usize, lit: &str) -> (r: bool)
    requires
        pos <= s@.len(),
    ensures
        r == has_lit(s@, pos as int, lit@),
{
    let n = s.unicode_len();
    let m = lit.unicode_len();
    if n - pos < m {
        return false;
    }
    let mut k: usize = 0;
    while k < m
        invariant
            k <= m,
            m == lit@.len(),
            n == s@.len(),
            pos + m <= n,
            forall|j: int| 0 <= j < k ==> s@[pos + j] == lit@[j],
        decreases m - k,
    {
        if s.get_char(pos + k) != lit.get_char(k) {
            return false;
        }
        k += 1;
    }
    true
}

} // verus!
