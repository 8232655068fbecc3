//! Binary decision diagrams.
//!
//! A diagram is an arena of nodes addressed by stable integer handles.  A
//! node is either a terminal carrying a boolean, or a decision node carrying
//! a variable name and the handles of its `false` and `true` children.  Both
//! children of a decision node come strictly earlier in the arena, so every
//! path from the root falls monotonically and the diagram is acyclic by
//! construction.  The function a diagram denotes is [`node_eval`] read from
//! its root.

use vstd::prelude::*;

use crate::assignment::Assignment;
use crate::formula::{Expression, form_eval, form_vars, lemma_form_eval_agree, spec_parse_expression};
use crate::names::{lemma_lex_lt_irrefl, lex_lt, name_seq, name_set, strict_sorted};

verus! {

#[derive(Debug)]
pub enum Node {
    Terminal(bool),
    Decision { label: String, low: usize, high: usize },
}

/// A decision node's children must come strictly before it.
pub open spec fn node_wf(nodes: Seq<Node>, i: int) -> bool {
    match nodes[i] {
        Node::Terminal(_) => true,
        Node::Decision { label, low, high } => (low as int) < i && (high as int) < i,
    }
}

pub open spec fn nodes_wf(nodes: Seq<Node>) -> bool {
    forall|i: int| 0 <= i < nodes.len() ==> node_wf(nodes, i)
}

/// The truth value found by tracing a path from node `i`: at a decision
/// node, follow the child selected by the assignment; at a terminal, stop.
pub open spec fn node_eval(nodes: Seq<Node>, i: int, env: Map<Seq<char>, bool>) -> bool
    decreases i,
{
    if 0 <= i < nodes.len() {
        match nodes[i] {
            Node::Terminal(b) => b,
            Node::Decision { label, low, high } => {
                if (low as int) < i && (high as int) < i {
                    if env[label@] {
                        node_eval(nodes, high as int, env)
                    } else {
                        node_eval(nodes, low as int, env)
                    }
                } else {
                    false
                }
            },
        }
    } else {
        false
    }
}

/// Tracing from `i` is unchanged when nodes are appended behind the ones it
/// can reach.
pub proof fn lemma_node_eval_frame(n1: Seq<Node>, n2: Seq<Node>, i: int, env: Map<Seq<char>, bool>)
    requires
        0 <= i < n1.len(),
        n1.len() <= n2.len(),
        forall|j: int| 0 <= j < n1.len() ==> n1[j] == n2[j],
    ensures
        node_eval(n2, i, env) == node_eval(n1, i, env),
    decreases i,
{
    match n1[i] {
        Node::Terminal(_) => {},
        Node::Decision { label, low, high } => {
            if (low as int) < i && (high as int) < i {
                lemma_node_eval_frame(n1, n2, low as int, env);
                lemma_node_eval_frame(n1, n2, high as int, env);
            }
        },
    }
}

/// No decision node carries the name `v`.
pub open spec fn no_label(nodes: Seq<Node>, v: Seq<char>) -> bool {
    forall|j: int|
        0 <= j < nodes.len() ==> (#[trigger] nodes[j] matches Node::Decision { label, .. }
            ==> label@ != v)
}

/// Tracing ignores variables that no decision node tests.
pub proof fn lemma_node_eval_insert_irrelevant(
    nodes: Seq<Node>,
    i: int,
    v: Seq<char>,
    b: bool,
    env: Map<Seq<char>, bool>,
)
    requires
        no_label(nodes, v),
    ensures
        node_eval(nodes, i, env.insert(v, b)) == node_eval(nodes, i, env),
    decreases i,
{
    if 0 <= i < nodes.len() {
        match nodes[i] {
            Node::Terminal(_) => {},
            Node::Decision { label, low, high } => {
                if (low as int) < i && (high as int) < i {
                    assert(label@ != v);
                    lemma_node_eval_insert_irrelevant(nodes, low as int, v, b, env);
                    lemma_node_eval_insert_irrelevant(nodes, high as int, v, b, env);
                }
            },
        }
    }
}

/// A binary boolean operator given by its truth table.
#[derive(Clone, Copy, Debug, PartialEq, Eq, Structural)]
pub struct BooleanOperator {
    pub ff: bool,
    pub ft: bool,
    pub tf: bool,
    pub tt: bool,
}

impl BooleanOperator {
    /// The operator applied to two truth values.
    pub open spec fn apply2(self, a: bool, b: bool) -> bool {
        if a {
            if b {
                self.tt
            } else {
                self.tf
            }
        } else {
            if b {
                self.ft
            } else {
                self.ff
            }
        }
    }

    pub fn eval2(&self, a: bool, b: bool) -> (r: bool)
        ensures
            r == self.apply2(a, b),
    {
        if a {
            if b {
                self.tt
            } else {
                self.tf
            }
        } else {
            if b {
                self.ft
            } else {
                self.ff
            }
        }
    }

    /// Inclusive disjunction.
    pub fn disjunction() -> (r: Self)
        ensures
            forall|a: bool, b: bool| #[trigger] r.apply2(a, b) == (a || b),
    {
        BooleanOperator { ff: false, ft: true, tf: true, tt: true }
    }

    /// Conjunction.
    pub fn conjunction() -> (r: Self)
        ensures
            forall|a: bool, b: bool| #[trigger] r.apply2(a, b) == (a && b),
    {
        BooleanOperator { ff: false, ft: false, tf: false, tt: true }
    }
}

pub struct BinaryDecisionDiagram {
    nodes: Vec<Node>,
    root: usize,
}

impl BinaryDecisionDiagram {
    /// The arena of nodes.
    pub closed spec fn spec_nodes(self) -> Seq<Node> {
        self.nodes@
    }

    /// The handle of the root node.
    pub closed spec fn spec_root(self) -> int {
        self.root as int
    }

    /// Well-formed: non-empty, the root in range, and every decision node's
    /// children strictly before it.
    pub open spec fn wf(self) -> bool {
        &&& self.spec_nodes().len() > 0
        &&& self.spec_root() < self.spec_nodes().len()
        &&& nodes_wf(self.spec_nodes())
    }

    /// The boolean function the diagram denotes.
    pub open spec fn spec_eval(self, env: Map<Seq<char>, bool>) -> bool {
        node_eval(self.spec_nodes(), self.spec_root(), env)
    }

    /// Every name tested by some decision node is bound in `env`.
    pub open spec fn labels_covered(self, env: Map<Seq<char>, bool>) -> bool {
        forall|j: int|
            0 <= j < self.spec_nodes().len() ==> (#[trigger] self.spec_nodes()[j] matches Node::Decision {
                label,
                ..
            } ==> env.contains_key(label@))
    }

    pub fn node_count(&self) -> (r: usize)
        ensures
            r == self.spec_nodes().len(),
    {
        self.nodes.len()
    }

    pub fn root_index(&self) -> (r: usize)
        ensures
            r == self.spec_root(),
    {
        self.root
    }

    /// The terminal value at handle `i`, when `i` holds a terminal.
    pub fn terminal_value(&self, i: usize) -> (r: Option<bool>)
        ensures
            r == if i < self.spec_nodes().len() {
                match self.spec_nodes()[i as int] {
                    Node::Terminal(b) => Some(b),
                    Node::Decision { .. } => None::<bool>,
                }
            } else {
                None::<bool>
            },
    {
        if i >= self.nodes.len() {
            return None;
        }
        match &self.nodes[i] {
            Node::Terminal(b) => Some(*b),
            Node::Decision { .. } => None,
        }
    }

    /// The label and the two children at handle `i`, when `i` holds a
    /// decision node.
    pub fn decision_parts(&self, i: usize) -> (r: Option<(String, usize, usize)>)
        ensures
            match r {
                Some((label, low, high)) => {
                    &&& i < self.spec_nodes().len()
                    &&& self.spec_nodes()[i as int] matches Node::Decision {
                        label: l,
                        low: lo,
                        high: hi,
                    }
                    &&& l@ == label@ && lo == low && hi == high
                },
                None => i < self.spec_nodes().len() ==> self.spec_nodes()[i as int] is Terminal,
            },
    {
        if i >= self.nodes.len() {
            return None;
        }
        match &self.nodes[i] {
            Node::Terminal(_) => None,
            Node::Decision { label, low, high } => Some((label.clone(), *low, *high)),
        }
    }

    /// How many edges the diagram has: two for every decision node.
    pub fn edge_count(&self) -> (r: usize)
        requires
            self.spec_nodes().len() <= usize::MAX / 2,
        ensures
            r == 2 * count_decisions(self.spec_nodes(), self.spec_nodes().len() as int),
    {
        let mut total: usize = 0;
        let mut i: usize = 0;
        while i < self.nodes.len()
            invariant
                i <= self.spec_nodes().len(),
                self.spec_nodes().len() <= usize::MAX / 2,
                total == 2 * count_decisions(self.spec_nodes(), i as int),
                total <= 2 * i,
            decreases self.spec_nodes().len() - i,
        {
            match &self.nodes[i] {
                Node::Terminal(_) => {},
                Node::Decision { .. } => {
                    total += 2;
                },
            }
            i += 1;
        }
        total
    }

    /// Whether the arena satisfies the well-formedness invariant; always
    /// true of a diagram built by this library.
    pub fn check_wf(&self) -> (r: bool)
        ensures
            r == self.wf(),
    {
        if self.nodes.len() == 0 || self.root >= self.nodes.len() {
            return false;
        }
        let mut i: usize = 0;
        while i < self.nodes.len()
            invariant
                i <= self.spec_nodes().len(),
                forall|j: int| 0 <= j < i ==> node_wf(self.spec_nodes(), j),
            decreases self.spec_nodes().len() - i,
        {
            match &self.nodes[i] {
                Node::Terminal(_) => {},
                Node::Decision { label, low, high } => {
                    if *low >= i || *high >= i {
                        proof {
                            assert(!node_wf(self.spec_nodes(), i as int));
                        }
                        return false;
                    }
                },
            }
            i += 1;
        }
        true
    }

    /// The truth value reached by tracing the diagram under `ctx`.
    pub fn evaluate(&self, ctx: &Assignment) -> (r: bool)
        requires
            self.wf(),
            self.labels_covered(ctx@),
        ensures
            r == self.spec_eval(ctx@),
    {
        evaluate_node(&self.nodes, self.root, ctx)
    }
}

/// Decision nodes among the first `upto` entries.
pub open spec fn count_decisions(nodes: Seq<Node>, upto: int) -> int
    decreases upto,
{
    if upto <= 0 || upto > nodes.len() {
        0
    } else {
        count_decisions(nodes, upto - 1) + match nodes[upto - 1] {
            Node::Terminal(_) => 0int,
            Node::Decision { .. } => 1int,
        }
    }
}

fn evaluate_node(nodes: &Vec<Node>, i: usize, ctx: &Assignment) -> (r: bool)
    requires
        i < nodes@.len(),
        nodes_wf(nodes@),
        forall|j: int|
            0 <= j < nodes@.len() ==> (#[trigger] nodes@[j] matches Node::Decision { label, .. }
                ==> ctx@.contains_key(label@)),
    ensures
        r == node_eval(nodes@, i as int, ctx@),
    decreases i,
{
    match &nodes[i] {
        Node::Terminal(b) => *b,
        Node::Decision { label, low, high } => {
            proof {
                assert(node_wf(nodes@, i as int));
                assert(nodes@[i as int] matches Node::Decision { label: l, .. } ==> ctx@.contains_key(
                    l@,
                ));
            }
            let taken = ctx.get(label.as_str()).unwrap();
            if taken {
                evaluate_node(nodes, *high, ctx)
            } else {
                evaluate_node(nodes, *low, ctx)
            }
        },
    }
}

/// Powers of two.
pub open spec fn pow2(n: nat) -> nat
    decreases n,
{
    if n == 0 {
        1
    } else {
        2 * pow2((n - 1) as nat)
    }
}

pub proof fn lemma_pow2_pos(n: nat)
    ensures
        pow2(n) >= 1,
    decreases n,
{
    if n > 0 {
        lemma_pow2_pos((n - 1) as nat);
    }
}

/// Two assignments that give the first `vi` listed variables the same
/// values.
pub open spec fn agrees_on_prefix(
    env2: Map<Seq<char>, bool>,
    env: Map<Seq<char>, bool>,
    vars: Seq<String>,
    vi: int,
) -> bool {
    forall|l: int| 0 <= l < vi ==> env2[#[trigger] vars[l]@] == env[vars[l]@]
}

/// Expand the full decision tree over `vars[vi..]`, one leaf per complete
/// assignment, labelled with the formula's value there.  Returns the handle
/// of the subtree's root, which is the last node pushed.
fn build_rec(
    out: &mut Vec<Node>,
    formula: &Expression,
    vars: &Vec<String>,
    vi: usize,
    env: &Assignment,
) -> (k: usize)
    requires
        vi <= vars@.len(),
        nodes_wf(old(out)@),
        ordered(old(out)@),
        form_vars(formula@) <= name_set(vars@),
        strict_sorted(name_seq(vars@)),
        forall|l: int| 0 <= l < vars@.len() ==> (l < vi ==> env@.contains_key(#[trigger] vars@[l]@)),
    ensures
        final(out)@.len() == old(out)@.len() + pow2((vars@.len() - vi + 1) as nat) - 1,
        forall|j: int| 0 <= j < old(out)@.len() ==> final(out)@[j] == old(out)@[j],
        nodes_wf(final(out)@),
        ordered(final(out)@),
        final(out)@[k as int] matches Node::Decision { label, .. } ==> vi < vars@.len() && label@
            == vars@[vi as int]@,
        k == final(out)@.len() - 1,
        forall|env2: Map<Seq<char>, bool>|
            agrees_on_prefix(env2, env@, vars@, vi as int) ==> #[trigger] node_eval(
                final(out)@,
                k as int,
                env2,
            ) == form_eval(formula@, env2),
    decreases vars@.len() - vi,
{
    proof {
        lemma_pow2_pos((vars@.len() - vi) as nat);
    }
    if vi == vars.len() {
        proof {
            assert forall|x: Seq<char>| form_vars(formula@).contains(x) implies env@.contains_key(
                x,
            ) by {
                assert(name_set(vars@).contains(x));
                let l = choose|l: int| 0 <= l < vars@.len() && vars@[l]@ == x;
                assert(env@.contains_key(vars@[l]@));
            }
        }
        let value = formula.eval(env);
        out.push(Node::Terminal(value));
        proof {
            assert forall|j: int| 0 <= j < out@.len() implies node_wf(out@, j) by {
                if j < out@.len() - 1 {
                    assert(out@[j] == old(out)@[j]);
                    assert(node_wf(old(out)@, j));
                }
            }
            assert forall|t: int| 0 <= t < out@.len() implies ordered_at(out@, t) by {
                if t < out@.len() - 1 {
                    assert(out@[t] == old(out)@[t]);
                    assert(ordered_at(old(out)@, t));
                    assert(node_wf(old(out)@, t));
                    match old(out)@[t] {
                        Node::Terminal(_) => {},
                        Node::Decision { label, low, high } => {
                            assert(out@[low as int] == old(out)@[low as int]);
                            assert(out@[high as int] == old(out)@[high as int]);
                        },
                    }
                }
            }
            assert forall|env2: Map<Seq<char>, bool>|
                agrees_on_prefix(env2, env@, vars@, vi as int) implies #[trigger] node_eval(
                out@,
                (out@.len() - 1) as int,
                env2,
            ) == form_eval(formula@, env2) by {
                assert forall|x: Seq<char>| #[trigger] form_vars(formula@).contains(
                    x,
                ) implies env@[x] == env2[x] by {
                    assert(name_set(vars@).contains(x));
                    let l = choose|l: int| 0 <= l < vars@.len() && vars@[l]@ == x;
                    assert(env2[vars@[l]@] == env@[vars@[l]@]);
                }
                lemma_form_eval_agree(formula@, env@, env2);
            }
        }
        out.len() - 1
    } else {
        let variable: &String = &vars[vi];
        let mut env_low = env.duplicate();
        env_low.insert(variable.clone(), false);
        let kf = build_rec(out, formula, vars, vi + 1, &env_low);
        let ghost out_mid = out@;
        let mut env_high = env.duplicate();
        env_high.insert(variable.clone(), true);
        let kt = build_rec(out, formula, vars, vi + 1, &env_high);
        let ghost out_high = out@;
        out.push(
            Node::Decision { label: variable.clone(), low: kf, high: kt },
        );
        let k = out.len() - 1;
        proof {
            let v = vars@[vi as int]@;
            assert(pow2((vars@.len() - vi + 1) as nat) == 2 * pow2((vars@.len() - vi) as nat));
            assert(nodes_wf(out@)) by {
                assert(forall|j: int|
                    0 <= j < out_high.len() ==> out@[j] == out_high[j] && node_wf(out_high, j));
                assert(node_wf(out@, k as int));
            }
            assert(out@[kf as int] == out_mid[kf as int]);
            assert(out@[kt as int] == out_high[kt as int]);
            assert forall|t: int| 0 <= t < out@.len() implies ordered_at(out@, t) by {
                if t < out_high.len() {
                    assert(out@[t] == out_high[t]);
                    assert(ordered_at(out_high, t));
                    assert(node_wf(out_high, t));
                    match out_high[t] {
                        Node::Terminal(_) => {},
                        Node::Decision { label, low, high } => {
                            assert(out@[low as int] == out_high[low as int]);
                            assert(out@[high as int] == out_high[high as int]);
                        },
                    }
                } else {
                    assert(out@[t] == Node::Decision {
                        label: out@[t]->Decision_label,
                        low: kf,
                        high: kt,
                    });
                    match out@[kf as int] {
                        Node::Terminal(_) => {},
                        Node::Decision { label: cl, .. } => {
                            assert(cl@ == vars@[vi + 1]@);
                            assert(lex_lt(name_seq(vars@)[vi as int], name_seq(vars@)[vi + 1]));
                        },
                    }
                    match out@[kt as int] {
                        Node::Terminal(_) => {},
                        Node::Decision { label: cl, .. } => {
                            assert(cl@ == vars@[vi + 1]@);
                            assert(lex_lt(name_seq(vars@)[vi as int], name_seq(vars@)[vi + 1]));
                        },
                    }
                }
            }
            assert forall|l: int| 0 <= l < vi implies vars@[l]@ != v by {
                assert(lex_lt(name_seq(vars@)[l], name_seq(vars@)[vi as int]));
                lemma_lex_lt_irrefl(v);
            }
            assert forall|env2: Map<Seq<char>, bool>|
                agrees_on_prefix(env2, env@, vars@, vi as int) implies #[trigger] node_eval(
                out@,
                k as int,
                env2,
            ) == form_eval(formula@, env2) by {
                lemma_node_eval_frame(out_mid, out@, kf as int, env2);
                lemma_node_eval_frame(out_high, out@, kt as int, env2);
                if env2[v] {
                    assert(agrees_on_prefix(env2, env_high@, vars@, vi + 1)) by {
                        assert(forall|l: int|
                            0 <= l < vi ==> env_high@[#[trigger] vars@[l]@] == env@[vars@[l]@]);
                        assert(env_high@[v] == true);
                    }
                    assert(node_eval(out_high, kt as int, env2) == form_eval(formula@, env2));
                } else {
                    assert(agrees_on_prefix(env2, env_low@, vars@, vi + 1)) by {
                        assert(forall|l: int|
                            0 <= l < vi ==> env_low@[#[trigger] vars@[l]@] == env@[vars@[l]@]);
                        assert(env_low@[v] == false);
                    }
                    assert(node_eval(out_mid, kf as int, env2) == form_eval(formula@, env2));
                }
            }
        }
        k
    }
}

impl BinaryDecisionDiagram {
    /// Expand `formula` into a full decision tree: one level per variable in
    /// ascending name order, one leaf per complete assignment.  The result
    /// denotes exactly the formula, and has `2^(n+1) - 1` nodes for `n`
    /// variables; it is canonical only after reduction.
    pub fn from_formula(formula: &Expression) -> (r: Self)
        ensures
            r.wf(),
            ordered(r.spec_nodes()),
            forall|env: Map<Seq<char>, bool>| #[trigger] r.spec_eval(env) == form_eval(
                formula@,
                env,
            ),
            r.spec_nodes().len() == pow2((form_vars(formula@).len() + 1) as nat) - 1,
            r.spec_root() == r.spec_nodes().len() - 1,
    {
        let vars = formula.variables();
        let env = Assignment::new();
        let mut out: Vec<Node> = Vec::new();
        let k = build_rec(&mut out, formula, &vars, 0, &env);
        proof {
            crate::names::lemma_name_set_card(vars@);
            assert(form_vars(formula@).len() == vars@.len());
        }
        BinaryDecisionDiagram { nodes: out, root: k }
    }
}

/// Combine the subdiagrams rooted at `li` and `ri` under `op`, appending
/// fresh nodes to `out`; the subresult's root is the last node pushed.
///
/// Both terminal: one terminal holding the operator's value.  One side at a
/// decision node that comes no later in the variable order: expand that
/// side, holding the other cursor still.  Equal labels: advance both sides
/// together.
fn apply_rec(
    out: &mut Vec<Node>,
    lhs: &Vec<Node>,
    li: usize,
    rhs: &Vec<Node>,
    ri: usize,
    op: &BooleanOperator,
) -> (k: usize)
    requires
        nodes_wf(old(out)@),
        nodes_wf(lhs@),
        li < lhs@.len(),
        nodes_wf(rhs@),
        ri < rhs@.len(),
    ensures
        final(out)@.len() > old(out)@.len(),
        forall|j: int| 0 <= j < old(out)@.len() ==> final(out)@[j] == old(out)@[j],
        nodes_wf(final(out)@),
        ordered(old(out)@) && ordered(lhs@) && ordered(rhs@) ==> ordered(final(out)@),
        k == final(out)@.len() - 1,
        forall|v: Seq<char>|
            #[trigger] labels_above(lhs@, li as int, v) && labels_above(rhs@, ri as int, v)
                ==> labels_above(final(out)@, k as int, v),
        forall|env: Map<Seq<char>, bool>| #[trigger] node_eval(final(out)@, k as int, env)
            == op.apply2(node_eval(lhs@, li as int, env), node_eval(rhs@, ri as int, env)),
    decreases li + ri, 1int,
{
    match (&lhs[li], &rhs[ri]) {
        (Node::Terminal(a), Node::Terminal(b)) => {
            let value = op.eval2(*a, *b);
            out.push(Node::Terminal(value));
            proof {
                assert forall|j: int| 0 <= j < out@.len() implies node_wf(out@, j) by {
                    if j < out@.len() - 1 {
                        assert(out@[j] == old(out)@[j]);
                        assert(node_wf(old(out)@, j));
                    }
                }
                if ordered(old(out)@) {
                    assert forall|t: int| 0 <= t < out@.len() implies ordered_at(out@, t) by {
                        if t < out@.len() - 1 {
                            assert(out@[t] == old(out)@[t]);
                            assert(ordered_at(old(out)@, t));
                            assert(node_wf(old(out)@, t));
                            match old(out)@[t] {
                                Node::Terminal(_) => {},
                                Node::Decision { label, low, high } => {
                                    assert(out@[low as int] == old(out)@[low as int]);
                                    assert(out@[high as int] == old(out)@[high as int]);
                                },
                            }
                        }
                    }
                }
            }
            out.len() - 1
        },
        (Node::Decision { .. }, Node::Terminal(_)) => explore_left(out, lhs, li, rhs, ri, op),
        (Node::Terminal(_), Node::Decision { .. }) => explore_right(out, lhs, li, rhs, ri, op),
        (Node::Decision { label: llabel, .. }, Node::Decision { label: rlabel, .. }) => {
            if crate::names::str_eq(llabel.as_str(), rlabel.as_str()) {
                explore_both(out, lhs, li, rhs, ri, op)
            } else if crate::names::str_lt(llabel.as_str(), rlabel.as_str()) {
                explore_left(out, lhs, li, rhs, ri, op)
            } else {
                proof {
                    if !lex_lt(rlabel@, llabel@) {
                        crate::names::lemma_lex_lt_connected(llabel@, rlabel@);
                    }
                    assert(lex_lt(rlabel@, llabel@));
                }
                explore_right(out, lhs, li, rhs, ri, op)
            }
        },
    }
}

/// Expand the left cursor's decision node, holding the right cursor still.
fn explore_left(
    out: &mut Vec<Node>,
    lhs: &Vec<Node>,
    li: usize,
    rhs: &Vec<Node>,
    ri: usize,
    op: &BooleanOperator,
) -> (k: usize)
    requires
        nodes_wf(old(out)@),
        nodes_wf(lhs@),
        li < lhs@.len(),
        nodes_wf(rhs@),
        ri < rhs@.len(),
        lhs@[li as int] is Decision,
    ensures
        final(out)@.len() > old(out)@.len(),
        forall|j: int| 0 <= j < old(out)@.len() ==> final(out)@[j] == old(out)@[j],
        nodes_wf(final(out)@),
        ordered(old(out)@) && ordered(lhs@) && ordered(rhs@) && (
        rhs@[ri as int] matches Node::Decision { label: rl, .. } ==> lex_lt(
            lhs@[li as int]->Decision_label@,
            rl@,
        )) ==> ordered(final(out)@),
        k == final(out)@.len() - 1,
        forall|v: Seq<char>|
            #[trigger] labels_above(lhs@, li as int, v) && labels_above(rhs@, ri as int, v)
                ==> labels_above(final(out)@, k as int, v),
        forall|env: Map<Seq<char>, bool>| #[trigger] node_eval(final(out)@, k as int, env)
            == op.apply2(node_eval(lhs@, li as int, env), node_eval(rhs@, ri as int, env)),
    decreases li + ri, 0int,
{
    proof {
        assert(node_wf(lhs@, li as int));
    }
    let (label, low, high) = match &lhs[li] {
        Node::Decision { label, low, high } => (label, *low, *high),
        Node::Terminal(_) => vstd::pervasive::unreached(),
    };
    let kf = apply_rec(out, lhs, low, rhs, ri, op);
    let ghost mid = out@;
    let kt = apply_rec(out, lhs, high, rhs, ri, op);
    let ghost tall = out@;
    out.push(Node::Decision { label: label.clone(), low: kf, high: kt });
    let k = out.len() - 1;
    proof {
        assert forall|j: int| 0 <= j < out@.len() implies node_wf(out@, j) by {
            if j < tall.len() {
                assert(out@[j] == tall[j]);
                assert(node_wf(tall, j));
            }
        }
        assert forall|env: Map<Seq<char>, bool>| #[trigger] node_eval(out@, k as int, env)
            == op.apply2(
            node_eval(lhs@, li as int, env),
            node_eval(rhs@, ri as int, env),
        ) by {
            lemma_node_eval_frame(mid, out@, kf as int, env);
            lemma_node_eval_frame(tall, out@, kt as int, env);
        }
        assert forall|v: Seq<char>|
            #[trigger] labels_above(lhs@, li as int, v) && labels_above(
                rhs@,
                ri as int,
                v,
            ) implies labels_above(out@, k as int, v) by {
            assert(labels_above(lhs@, low as int, v) && labels_above(lhs@, high as int, v));
            assert(labels_above(mid, kf as int, v));
            assert(labels_above(tall, kt as int, v));
            lemma_labels_above_frame(mid, out@, kf as int, v);
            lemma_labels_above_frame(tall, out@, kt as int, v);
        }
        if ordered(old(out)@) && ordered(lhs@) && ordered(rhs@) && (
        rhs@[ri as int] matches Node::Decision { label: rl, .. } ==> lex_lt(
            lhs@[li as int]->Decision_label@,
            rl@,
        )) {
            assert(ordered(mid));
            assert(ordered(tall));
            assert(ordered_at(lhs@, li as int));
            lemma_above_from_ordered(lhs@, low as int, label@);
            lemma_above_from_ordered(lhs@, high as int, label@);
            lemma_above_from_ordered(rhs@, ri as int, label@);
            assert(labels_above(mid, kf as int, label@));
            assert(labels_above(tall, kt as int, label@));
            lemma_labels_above_frame(mid, out@, kf as int, label@);
            lemma_labels_above_frame(tall, out@, kt as int, label@);
            assert forall|t: int| 0 <= t < out@.len() implies ordered_at(out@, t) by {
                if t < tall.len() {
                    assert(out@[t] == tall[t]);
                    assert(ordered_at(tall, t));
                    assert(node_wf(tall, t));
                    match tall[t] {
                        Node::Terminal(_) => {},
                        Node::Decision { label: l3, low: lo3, high: hi3 } => {
                            assert(out@[lo3 as int] == tall[lo3 as int]);
                            assert(out@[hi3 as int] == tall[hi3 as int]);
                        },
                    }
                }
            }
        }
    }
    k
}

/// Expand the right cursor's decision node, holding the left cursor still.
fn explore_right(
    out: &mut Vec<Node>,
    lhs: &Vec<Node>,
    li: usize,
    rhs: &Vec<Node>,
    ri: usize,
    op: &BooleanOperator,
) -> (k: usize)
    requires
        nodes_wf(old(out)@),
        nodes_wf(lhs@),
        li < lhs@.len(),
        nodes_wf(rhs@),
        ri < rhs@.len(),
        rhs@[ri as int] is Decision,
    ensures
        final(out)@.len() > old(out)@.len(),
        forall|j: int| 0 <= j < old(out)@.len() ==> final(out)@[j] == old(out)@[j],
        nodes_wf(final(out)@),
        ordered(old(out)@) && ordered(lhs@) && ordered(rhs@) && (
        lhs@[li as int] matches Node::Decision { label: ll, .. } ==> lex_lt(
            rhs@[ri as int]->Decision_label@,
            ll@,
        )) ==> ordered(final(out)@),
        k == final(out)@.len() - 1,
        forall|v: Seq<char>|
            #[trigger] labels_above(lhs@, li as int, v) && labels_above(rhs@, ri as int, v)
                ==> labels_above(final(out)@, k as int, v),
        forall|env: Map<Seq<char>, bool>| #[trigger] node_eval(final(out)@, k as int, env)
            == op.apply2(node_eval(lhs@, li as int, env), node_eval(rhs@, ri as int, env)),
    decreases li + ri, 0int,
{
    proof {
        assert(node_wf(rhs@, ri as int));
    }
    let (label, low, high) = match &rhs[ri] {
        Node::Decision { label, low, high } => (label, *low, *high),
        Node::Terminal(_) => vstd::pervasive::unreached(),
    };
    let kf = apply_rec(out, lhs, li, rhs, low, op);
    let ghost mid = out@;
    let kt = apply_rec(out, lhs, li, rhs, high, op);
    let ghost tall = out@;
    out.push(Node::Decision { label: label.clone(), low: kf, high: kt });
    let k = out.len() - 1;
    proof {
        assert forall|j: int| 0 <= j < out@.len() implies node_wf(out@, j) by {
            if j < tall.len() {
                assert(out@[j] == tall[j]);
                assert(node_wf(tall, j));
            }
        }
        assert forall|env: Map<Seq<char>, bool>| #[trigger] node_eval(out@, k as int, env)
            == op.apply2(
            node_eval(lhs@, li as int, env),
            node_eval(rhs@, ri as int, env),
        ) by {
            lemma_node_eval_frame(mid, out@, kf as int, env);
            lemma_node_eval_frame(tall, out@, kt as int, env);
        }
        assert forall|v: Seq<char>|
            #[trigger] labels_above(lhs@, li as int, v) && labels_above(
                rhs@,
                ri as int,
                v,
            ) implies labels_above(out@, k as int, v) by {
            assert(labels_above(rhs@, low as int, v) && labels_above(rhs@, high as int, v));
            assert(labels_above(mid, kf as int, v));
            assert(labels_above(tall, kt as int, v));
            lemma_labels_above_frame(mid, out@, kf as int, v);
            lemma_labels_above_frame(tall, out@, kt as int, v);
        }
        if ordered(old(out)@) && ordered(lhs@) && ordered(rhs@) && (
        lhs@[li as int] matches Node::Decision { label: ll, .. } ==> lex_lt(
            rhs@[ri as int]->Decision_label@,
            ll@,
        )) {
            assert(ordered(mid));
            assert(ordered(tall));
            assert(ordered_at(rhs@, ri as int));
            lemma_above_from_ordered(rhs@, low as int, label@);
            lemma_above_from_ordered(rhs@, high as int, label@);
            lemma_above_from_ordered(lhs@, li as int, label@);
            assert(labels_above(mid, kf as int, label@));
            assert(labels_above(tall, kt as int, label@));
            lemma_labels_above_frame(mid, out@, kf as int, label@);
            lemma_labels_above_frame(tall, out@, kt as int, label@);
            assert forall|t: int| 0 <= t < out@.len() implies ordered_at(out@, t) by {
                if t < tall.len() {
                    assert(out@[t] == tall[t]);
                    assert(ordered_at(tall, t));
                    assert(node_wf(tall, t));
                    match tall[t] {
                        Node::Terminal(_) => {},
                        Node::Decision { label: l3, low: lo3, high: hi3 } => {
                            assert(out@[lo3 as int] == tall[lo3 as int]);
                            assert(out@[hi3 as int] == tall[hi3 as int]);
                        },
                    }
                }
            }
        }
    }
    k
}

/// Expand both cursors together: they stand on the same variable.
fn explore_both(
    out: &mut Vec<Node>,
    lhs: &Vec<Node>,
    li: usize,
    rhs: &Vec<Node>,
    ri: usize,
    op: &BooleanOperator,
) -> (k: usize)
    requires
        nodes_wf(old(out)@),
        nodes_wf(lhs@),
        li < lhs@.len(),
        nodes_wf(rhs@),
        ri < rhs@.len(),
        lhs@[li as int] is Decision,
        rhs@[ri as int] is Decision,
        lhs@[li as int]->Decision_label@ == rhs@[ri as int]->Decision_label@,
    ensures
        final(out)@.len() > old(out)@.len(),
        forall|j: int| 0 <= j < old(out)@.len() ==> final(out)@[j] == old(out)@[j],
        nodes_wf(final(out)@),
        ordered(old(out)@) && ordered(lhs@) && ordered(rhs@) ==> ordered(final(out)@),
        k == final(out)@.len() - 1,
        forall|v: Seq<char>|
            #[trigger] labels_above(lhs@, li as int, v) && labels_above(rhs@, ri as int, v)
                ==> labels_above(final(out)@, k as int, v),
        forall|env: Map<Seq<char>, bool>| #[trigger] node_eval(final(out)@, k as int, env)
            == op.apply2(node_eval(lhs@, li as int, env), node_eval(rhs@, ri as int, env)),
    decreases li + ri, 0int,
{
    proof {
        assert(node_wf(lhs@, li as int));
        assert(node_wf(rhs@, ri as int));
    }
    let (label, llow, lhigh) = match &lhs[li] {
        Node::Decision { label, low, high } => (label, *low, *high),
        Node::Terminal(_) => vstd::pervasive::unreached(),
    };
    let (rlow, rhigh) = match &rhs[ri] {
        Node::Decision { low, high, .. } => (*low, *high),
        Node::Terminal(_) => vstd::pervasive::unreached(),
    };
    let kf = apply_rec(out, lhs, llow, rhs, rlow, op);
    let ghost mid = out@;
    let kt = apply_rec(out, lhs, lhigh, rhs, rhigh, op);
    let ghost tall = out@;
    out.push(Node::Decision { label: label.clone(), low: kf, high: kt });
    let k = out.len() - 1;
    proof {
        assert forall|j: int| 0 <= j < out@.len() implies node_wf(out@, j) by {
            if j < tall.len() {
                assert(out@[j] == tall[j]);
                assert(node_wf(tall, j));
            }
        }
        assert forall|env: Map<Seq<char>, bool>| #[trigger] node_eval(out@, k as int, env)
            == op.apply2(
            node_eval(lhs@, li as int, env),
            node_eval(rhs@, ri as int, env),
        ) by {
            lemma_node_eval_frame(mid, out@, kf as int, env);
            lemma_node_eval_frame(tall, out@, kt as int, env);
        }
        assert forall|v: Seq<char>|
            #[trigger] labels_above(lhs@, li as int, v) && labels_above(
                rhs@,
                ri as int,
                v,
            ) implies labels_above(out@, k as int, v) by {
            assert(labels_above(lhs@, llow as int, v) && labels_above(lhs@, lhigh as int, v));
            assert(labels_above(rhs@, rlow as int, v) && labels_above(rhs@, rhigh as int, v));
            assert(labels_above(mid, kf as int, v));
            assert(labels_above(tall, kt as int, v));
            lemma_labels_above_frame(mid, out@, kf as int, v);
            lemma_labels_above_frame(tall, out@, kt as int, v);
        }
        if ordered(old(out)@) && ordered(lhs@) && ordered(rhs@) {
            assert(ordered(mid));
            assert(ordered(tall));
            assert(ordered_at(lhs@, li as int));
            assert(ordered_at(rhs@, ri as int));
            lemma_above_from_ordered(lhs@, llow as int, label@);
            lemma_above_from_ordered(lhs@, lhigh as int, label@);
            lemma_above_from_ordered(rhs@, rlow as int, label@);
            lemma_above_from_ordered(rhs@, rhigh as int, label@);
            assert(labels_above(mid, kf as int, label@));
            assert(labels_above(tall, kt as int, label@));
            lemma_labels_above_frame(mid, out@, kf as int, label@);
            lemma_labels_above_frame(tall, out@, kt as int, label@);
            assert forall|t: int| 0 <= t < out@.len() implies ordered_at(out@, t) by {
                if t < tall.len() {
                    assert(out@[t] == tall[t]);
                    assert(ordered_at(tall, t));
                    assert(node_wf(tall, t));
                    match tall[t] {
                        Node::Terminal(_) => {},
                        Node::Decision { label: l3, low: lo3, high: hi3 } => {
                            assert(out@[lo3 as int] == tall[lo3 as int]);
                            assert(out@[hi3 as int] == tall[hi3 as int]);
                        },
                    }
                }
            }
        }
    }
    k
}

impl BinaryDecisionDiagram {
    /// Combine two diagrams pointwise under an arbitrary binary boolean
    /// operator.  The result is generally unreduced; callers reduce it.
    pub fn apply(&self, other: &Self, op: BooleanOperator) -> (r: Self)
        requires
            self.wf(),
            other.wf(),
        ensures
            r.wf(),
            ordered(self.spec_nodes()) && ordered(other.spec_nodes()) ==> ordered(r.spec_nodes()),
            forall|env: Map<Seq<char>, bool>| #[trigger] r.spec_eval(env) == op.apply2(
                self.spec_eval(env),
                other.spec_eval(env),
            ),
    {
        let mut out: Vec<Node> = Vec::new();
        let k = apply_rec(&mut out, &self.nodes, self.root, &other.nodes, other.root, &op);
        BinaryDecisionDiagram { nodes: out, root: k }
    }

    /// The pointwise disjunction of two diagrams, unreduced.
    pub fn or(&self, other: &BinaryDecisionDiagram) -> (r: Self)
        requires
            self.wf(),
            other.wf(),
        ensures
            r.wf(),
            ordered(self.spec_nodes()) && ordered(other.spec_nodes()) ==> ordered(r.spec_nodes()),
            forall|env: Map<Seq<char>, bool>| #[trigger] r.spec_eval(env) == (self.spec_eval(env)
                || other.spec_eval(env)),
    {
        self.apply(other, BooleanOperator::disjunction())
    }

    /// The pointwise conjunction of two diagrams, unreduced.
    pub fn and(&self, other: &BinaryDecisionDiagram) -> (r: Self)
        requires
            self.wf(),
            other.wf(),
        ensures
            r.wf(),
            ordered(self.spec_nodes()) && ordered(other.spec_nodes()) ==> ordered(r.spec_nodes()),
            forall|env: Map<Seq<char>, bool>| #[trigger] r.spec_eval(env) == (self.spec_eval(env)
                && other.spec_eval(env)),
    {
        self.apply(other, BooleanOperator::conjunction())
    }
}

/// Whether the node at `j` survives restriction on `v`: every node but a
/// decision node labelled `v`.
pub open spec fn keeps(nodes: Seq<Node>, j: int, v: Seq<char>) -> bool {
    nodes[j] matches Node::Decision { label, .. } ==> label@ != v
}

/// `red` resolves the first `upto` handles to surviving nodes no later in
/// the arena.
pub open spec fn resolves(nodes: Seq<Node>, red: Seq<usize>, upto: int, v: Seq<char>) -> bool {
    forall|j: int| 0 <= j < upto ==> #[trigger] red[j] <= j && keeps(nodes, red[j] as int, v)
}

/// Resolved handles trace to the same value whenever `v` is set to `b`.
pub open spec fn resolves_eval(
    nodes: Seq<Node>,
    red: Seq<usize>,
    upto: int,
    v: Seq<char>,
    b: bool,
) -> bool {
    forall|j: int, env: Map<Seq<char>, bool>|
        0 <= j < upto && env[v] == b ==> node_eval(nodes, red[j] as int, env) == #[trigger] node_eval(
            nodes,
            j,
            env,
        )
}

/// Resolve every handle to the node it reaches once `variable_name` is
/// fixed to `variable_value`: a decision node on that variable stands for
/// the child the value selects, every other node for itself.
#[verifier::rlimit(100)]
fn restrict_resolve(nodes: &Vec<Node>, variable_name: &str, variable_value: bool) -> (red: Vec<
    usize,
>)
    requires
        nodes_wf(nodes@),
    ensures
        red@.len() == nodes@.len(),
        resolves(nodes@, red@, nodes@.len() as int, variable_name@),
        resolves_eval(nodes@, red@, nodes@.len() as int, variable_name@, variable_value),
        forall|j: int, v2: Seq<char>|
            0 <= j < nodes@.len() && #[trigger] labels_above(nodes@, j, v2) ==> labels_above(
                nodes@,
                red@[j] as int,
                v2,
            ),
{
    let ghost v = variable_name@;
    let ghost b = variable_value;
    let n = nodes.len();
    let mut red: Vec<usize> = Vec::new();
    let mut i: usize = 0;
    while i < n
        invariant
            i <= n,
            n == nodes@.len(),
            v == variable_name@,
            b == variable_value,
            nodes_wf(nodes@),
            red@.len() == i,
            resolves(nodes@, red@, i as int, v),
            resolves_eval(nodes@, red@, i as int, v, b),
            forall|j: int, v2: Seq<char>|
                0 <= j < i && #[trigger] labels_above(nodes@, j, v2) ==> labels_above(
                    nodes@,
                    red@[j] as int,
                    v2,
                ),
        decreases n - i,
    {
        let mut target: usize = i;
        match &nodes[i] {
            Node::Decision { label, low, high } => {
                if crate::names::str_eq(label.as_str(), variable_name) {
                    proof {
                        assert(node_wf(nodes@, i as int));
                    }
                    let child = if variable_value {
                        *high
                    } else {
                        *low
                    };
                    target = red[child];
                    proof {
                        assert forall|env: Map<Seq<char>, bool>| env[v] == b implies node_eval(
                            nodes@,
                            target as int,
                            env,
                        ) == node_eval(nodes@, i as int, env) by {
                            assert(node_eval(nodes@, child as int, env) == node_eval(
                                nodes@,
                                red@[child as int] as int,
                                env,
                            ));
                            assert(env[label@] == b);
                        }
                    }
                }
            },
            Node::Terminal(_) => {},
        }
        let ghost red_prev = red@;
        red.push(target);
        i += 1;
        proof {
            assert forall|j: int| 0 <= j < i implies #[trigger] red@[j] <= j && keeps(
                nodes@,
                red@[j] as int,
                v,
            ) by {
                if j < i - 1 {
                    assert(red@[j] == red_prev[j]);
                }
            }
            assert forall|j: int, env: Map<Seq<char>, bool>|
                0 <= j < i && env[v] == b implies node_eval(nodes@, red@[j] as int, env)
                == node_eval(nodes@, j, env) by {
                if j < i - 1 {
                    assert(red@[j] == red_prev[j]);
                    assert(node_eval(nodes@, red_prev[j] as int, env) == node_eval(
                        nodes@,
                        j,
                        env,
                    ));
                }
            }
            assert forall|j: int, v2: Seq<char>|
                0 <= j < i && #[trigger] labels_above(nodes@, j, v2) implies labels_above(
                nodes@,
                red@[j] as int,
                v2,
            ) by {
                if j < i - 1 {
                    assert(red@[j] == red_prev[j]);
                    assert(labels_above(nodes@, red_prev[j] as int, v2));
                } else {
                    match nodes@[j] {
                        Node::Terminal(_) => {},
                        Node::Decision { label, low, high } => {
                            assert(node_wf(nodes@, j));
                            if red@[j] != j {
                                assert(labels_above(nodes@, low as int, v2));
                                assert(labels_above(nodes@, high as int, v2));
                                assert(labels_above(nodes@, red_prev[low as int] as int, v2));
                                assert(labels_above(nodes@, red_prev[high as int] as int, v2));
                            }
                        },
                    }
                }
            }
        }
    }
    red
}

impl BinaryDecisionDiagram {
    /// Fix `variable_name` to `variable_value`: every incoming edge of a
    /// node testing that variable is redirected to the child selected by the
    /// value, and the node itself is removed.  The result denotes the
    /// cofactor of the original function on that assignment, and tests the
    /// variable nowhere.
    #[verifier::rlimit(100)]
    pub fn restrict(&mut self, variable_name: &str, variable_value: bool)
        requires
            old(self).wf(),
        ensures
            final(self).wf(),
            no_label(final(self).spec_nodes(), variable_name@),
            ordered(old(self).spec_nodes()) ==> ordered(final(self).spec_nodes()),
            forall|env: Map<Seq<char>, bool>| #[trigger] final(self).spec_eval(env) == old(
                self,
            ).spec_eval(env.insert(variable_name@, variable_value)),
    {
        let ghost v = variable_name@;
        let ghost b = variable_value;
        let ghost ordered_in = ordered(old(self).spec_nodes());
        let n = self.nodes.len();
        let red = restrict_resolve(&self.nodes, variable_name, variable_value);
        // Rebuild the arena without the restricted nodes, remapping every
        // surviving handle.
        let mut new_nodes: Vec<Node> = Vec::new();
        let mut map: Vec<usize> = Vec::new();
        let ghost mut creator: Seq<int> = Seq::empty();
        let mut i: usize = 0;
        while i < n
            invariant
                i <= n,
                n == self.spec_nodes().len(),
                v == variable_name@,
                b == variable_value,
                *self == *old(self),
                old(self).wf(),
                red@.len() == n,
                resolves(self.spec_nodes(), red@, n as int, v),
                resolves_eval(self.spec_nodes(), red@, n as int, v, b),
                forall|j: int, v2: Seq<char>|
                    0 <= j < n && #[trigger] labels_above(self.spec_nodes(), j, v2)
                        ==> labels_above(self.spec_nodes(), red@[j] as int, v2),
                ordered_in == ordered(old(self).spec_nodes()),
                ordered_in ==> ordered(new_nodes@),
                ordered_in ==> (forall|j: int, v2: Seq<char>|
                    0 <= j < i && keeps(self.spec_nodes(), j, v) && #[trigger] labels_above(
                        self.spec_nodes(),
                        j,
                        v2,
                    ) ==> labels_above(new_nodes@, map@[j] as int, v2)),
                map@.len() == i,
                new_nodes@.len() <= i,
                nodes_wf(new_nodes@),
                no_label(new_nodes@, v),
                forall|j: int|
                    0 <= j < i && keeps(self.spec_nodes(), j, v) ==> #[trigger] map@[j]
                        < new_nodes@.len(),
                forall|j: int, env: Map<Seq<char>, bool>|
                    0 <= j < i && keeps(self.spec_nodes(), j, v) && env[v] == b ==> node_eval(
                        new_nodes@,
                        map@[j] as int,
                        env,
                    ) == #[trigger] node_eval(self.spec_nodes(), j, env),
            decreases n - i,
        {
            let ghost prev = new_nodes@;
            let ghost map_prev = map@;
            match &self.nodes[i] {
                Node::Terminal(value) => {
                    new_nodes.push(Node::Terminal(*value));
                    map.push(new_nodes.len() - 1);
                },
                Node::Decision { label, low, high } => {
                    if crate::names::str_eq(label.as_str(), variable_name) {
                        // A removed node keeps a placeholder image; every
                        // reference to it goes through `red` instead.
                        map.push(0);
                    } else {
                        proof {
                            assert(node_wf(self.spec_nodes(), i as int));
                            assert(red@[*low as int] <= *low as int);
                            assert(red@[*high as int] <= *high as int);
                            assert(keeps(self.spec_nodes(), red@[*low as int] as int, v));
                            assert(keeps(self.spec_nodes(), red@[*high as int] as int, v));
                        }
                        let nl = map[red[*low]];
                        let nh = map[red[*high]];
                        new_nodes.push(
                            Node::Decision { label: label.clone(), low: nl, high: nh },
                        );
                        map.push(new_nodes.len() - 1);
                    }
                },
            }
            i += 1;
            proof {
                assert forall|j: int| 0 <= j < new_nodes@.len() implies node_wf(new_nodes@, j) by {
                    if j < prev.len() {
                        assert(new_nodes@[j] == prev[j]);
                        assert(node_wf(prev, j));
                    }
                }
                if ordered_in {
                    assert forall|j: int, v2: Seq<char>|
                        0 <= j < i && keeps(self.spec_nodes(), j, v) && #[trigger] labels_above(
                            self.spec_nodes(),
                            j,
                            v2,
                        ) implies labels_above(new_nodes@, map@[j] as int, v2) by {
                        if j < i - 1 {
                            assert(map@[j] == map_prev[j]);
                            assert(labels_above(prev, map_prev[j] as int, v2));
                            lemma_labels_above_frame(prev, new_nodes@, map_prev[j] as int, v2);
                        } else {
                            match self.spec_nodes()[j] {
                                Node::Terminal(_) => {},
                                Node::Decision { label, low, high } => {
                                    assert(node_wf(self.spec_nodes(), j));
                                    let rl = red@[low as int] as int;
                                    let rh = red@[high as int] as int;
                                    assert(labels_above(self.spec_nodes(), low as int, v2));
                                    assert(labels_above(self.spec_nodes(), high as int, v2));
                                    assert(labels_above(self.spec_nodes(), rl, v2));
                                    assert(labels_above(self.spec_nodes(), rh, v2));
                                    assert(labels_above(prev, map_prev[rl] as int, v2));
                                    assert(labels_above(prev, map_prev[rh] as int, v2));
                                    lemma_labels_above_frame(
                                        prev,
                                        new_nodes@,
                                        map_prev[rl] as int,
                                        v2,
                                    );
                                    lemma_labels_above_frame(
                                        prev,
                                        new_nodes@,
                                        map_prev[rh] as int,
                                        v2,
                                    );
                                },
                            }
                        }
                    }
                    assert forall|t: int| 0 <= t < new_nodes@.len() implies ordered_at(
                        new_nodes@,
                        t,
                    ) by {
                        if t < prev.len() {
                            assert(new_nodes@[t] == prev[t]);
                            assert(ordered_at(prev, t));
                            assert(node_wf(prev, t));
                            match prev[t] {
                                Node::Terminal(_) => {},
                                Node::Decision { label: l3, low: lo3, high: hi3 } => {
                                    assert(new_nodes@[lo3 as int] == prev[lo3 as int]);
                                    assert(new_nodes@[hi3 as int] == prev[hi3 as int]);
                                },
                            }
                        } else {
                            match self.spec_nodes()[i - 1] {
                                Node::Terminal(_) => {},
                                Node::Decision { label, low, high } => {
                                    assert(node_wf(self.spec_nodes(), i - 1));
                                    assert(ordered_at(old(self).spec_nodes(), i - 1));
                                    let rl = red@[low as int] as int;
                                    let rh = red@[high as int] as int;
                                    lemma_above_from_ordered(
                                        self.spec_nodes(),
                                        low as int,
                                        label@,
                                    );
                                    lemma_above_from_ordered(
                                        self.spec_nodes(),
                                        high as int,
                                        label@,
                                    );
                                    assert(labels_above(self.spec_nodes(), low as int, label@));
                                    assert(labels_above(self.spec_nodes(), high as int, label@));
                                    assert(labels_above(self.spec_nodes(), rl, label@));
                                    assert(labels_above(self.spec_nodes(), rh, label@));
                                    assert(labels_above(prev, map_prev[rl] as int, label@));
                                    assert(labels_above(prev, map_prev[rh] as int, label@));
                                    lemma_labels_above_frame(
                                        prev,
                                        new_nodes@,
                                        map_prev[rl] as int,
                                        label@,
                                    );
                                    lemma_labels_above_frame(
                                        prev,
                                        new_nodes@,
                                        map_prev[rh] as int,
                                        label@,
                                    );
                                },
                            }
                        }
                    }
                }
                assert forall|j: int, env: Map<Seq<char>, bool>|
                    0 <= j < i && keeps(self.spec_nodes(), j, v) && env[v] == b implies node_eval(
                    new_nodes@,
                    map@[j] as int,
                    env,
                ) == node_eval(self.spec_nodes(), j, env) by {
                    if j < i - 1 {
                        assert(map@[j] == map_prev[j]);
                        assert(node_eval(prev, map_prev[j] as int, env) == node_eval(
                            self.spec_nodes(),
                            j,
                            env,
                        ));
                        lemma_node_eval_frame(prev, new_nodes@, map_prev[j] as int, env);
                    } else {
                        match self.spec_nodes()[j] {
                            Node::Terminal(_) => {},
                            Node::Decision { label, low, high } => {
                                assert(node_wf(self.spec_nodes(), j));
                                let rl = red@[low as int] as int;
                                let rh = red@[high as int] as int;
                                assert(node_eval(prev, map_prev[rl] as int, env) == node_eval(
                                    self.spec_nodes(),
                                    rl,
                                    env,
                                ));
                                assert(node_eval(prev, map_prev[rh] as int, env) == node_eval(
                                    self.spec_nodes(),
                                    rh,
                                    env,
                                ));
                                lemma_node_eval_frame(prev, new_nodes@, map_prev[rl] as int, env);
                                lemma_node_eval_frame(prev, new_nodes@, map_prev[rh] as int, env);
                                assert(node_eval(self.spec_nodes(), rl, env) == node_eval(
                                    self.spec_nodes(),
                                    low as int,
                                    env,
                                ));
                                assert(node_eval(self.spec_nodes(), rh, env) == node_eval(
                                    self.spec_nodes(),
                                    high as int,
                                    env,
                                ));
                                assert(env[label@] != b ==> env[label@] == !b);
                            },
                        }
                    }
                }
            }
        }
        proof {
            assert(keeps(self.spec_nodes(), red@[self.spec_root()] as int, v));
        }
        let new_root = map[red[self.root]];
        let ghost before = *self;
        self.nodes = new_nodes;
        self.root = new_root;
        proof {
            assert forall|env: Map<Seq<char>, bool>| #[trigger] node_eval(
                self.spec_nodes(),
                self.spec_root(),
                env,
            ) == node_eval(before.spec_nodes(), before.spec_root(), env.insert(v, b)) by {
                let env2 = env.insert(v, b);
                assert(env2[v] == b);
                assert(node_eval(self.spec_nodes(), self.spec_root(), env2) == node_eval(
                    before.spec_nodes(),
                    before.spec_root(),
                    env2,
                ));
                lemma_node_eval_insert_irrelevant(self.spec_nodes(), self.spec_root(), v, b, env);
            }
        }
    }
}

/// The boolean carried by a terminal node, if the node is one.
pub open spec fn term_val(n: Node) -> Option<bool> {
    match n {
        Node::Terminal(b) => Some(b),
        Node::Decision { .. } => None,
    }
}

/// The label and children of a decision node, if the node is one.
pub open spec fn dec_parts(n: Node) -> Option<(Seq<char>, int, int)> {
    match n {
        Node::Terminal(_) => None,
        Node::Decision { label, low, high } => Some((label@, low as int, high as int)),
    }
}

/// Whether node `i` can be reached from node `r` along child edges.
pub open spec fn reachable_from(nodes: Seq<Node>, r: int, i: int) -> bool
    decreases r,
{
    if r == i {
        true
    } else if 0 <= r < nodes.len() {
        match nodes[r] {
            Node::Terminal(_) => false,
            Node::Decision { label, low, high } => (low as int) < r && (high as int) < r
                && (reachable_from(nodes, low as int, i) || reachable_from(nodes, high as int, i)),
        }
    } else {
        false
    }
}

/// Maximal sharing: one terminal per truth value, no decision node with
/// equal children, and no two decision nodes alike.
pub open spec fn canonical_nodes(nodes: Seq<Node>) -> bool {
    &&& forall|a: int, b: int|
        #![trigger term_val(nodes[a]), term_val(nodes[b])]
        0 <= a < b < nodes.len() ==> !(term_val(nodes[a]) is Some && term_val(nodes[a]) == term_val(
            nodes[b],
        ))
    &&& forall|a: int|
        0 <= a < nodes.len() ==> (#[trigger] dec_parts(nodes[a]) matches Some(q) ==> q.1 != q.2)
    &&& forall|a: int, b: int|
        #![trigger dec_parts(nodes[a]), dec_parts(nodes[b])]
        0 <= a < b < nodes.len() ==> !(dec_parts(nodes[a]) is Some && dec_parts(nodes[a])
            == dec_parts(nodes[b]))
}

/// The canonical reduced form: maximal sharing, and no node unreachable
/// from the root.
pub open spec fn reduced(nodes: Seq<Node>, root: int) -> bool {
    &&& canonical_nodes(nodes)
    &&& forall|a: int| 0 <= a < nodes.len() ==> reachable_from(nodes, root, a)
}

/// The node at `i` tests an earlier name than both of its children.
pub open spec fn ordered_at(nodes: Seq<Node>, i: int) -> bool {
    nodes[i] matches Node::Decision { label, low, high } ==> (nodes[low as int] matches Node::Decision {
        label: l2,
        ..
    } ==> lex_lt(label@, l2@)) && (nodes[high as int] matches Node::Decision { label: l2, .. }
        ==> lex_lt(label@, l2@))
}

/// Variable names ascend along every edge: a decision node's children test
/// strictly later names, the global order of all diagrams built here.
pub open spec fn ordered(nodes: Seq<Node>) -> bool {
    forall|i: int| 0 <= i < nodes.len() ==> ordered_at(nodes, i)
}

/// The subgraphs below two handles have the same shape: equal terminals, or
/// decision nodes on the same name whose children match in turn.
pub open spec fn struct_eq(n1: Seq<Node>, i: int, n2: Seq<Node>, j: int) -> bool
    decreases i + j,
{
    if 0 <= i < n1.len() && 0 <= j < n2.len() {
        match (n1[i], n2[j]) {
            (Node::Terminal(a), Node::Terminal(b)) => a == b,
            (
                Node::Decision { label: l1, low: lo1, high: hi1 },
                Node::Decision { label: l2, low: lo2, high: hi2 },
            ) => l1@ == l2@ && ((lo1 as int) < i && (hi1 as int) < i && (lo2 as int) < j && (
            hi2 as int) < j) && struct_eq(n1, lo1 as int, n2, lo2 as int) && struct_eq(
                n1,
                hi1 as int,
                n2,
                hi2 as int,
            ),
            _ => false,
        }
    } else {
        false
    }
}

/// Every decision node below `i` tests a name strictly above `v`.
pub open spec fn labels_above(nodes: Seq<Node>, i: int, v: Seq<char>) -> bool
    decreases i,
{
    if 0 <= i < nodes.len() {
        match nodes[i] {
            Node::Terminal(_) => true,
            Node::Decision { label, low, high } => lex_lt(v, label@) && ((low as int) < i && (
            high as int) < i ==> labels_above(nodes, low as int, v) && labels_above(
                nodes,
                high as int,
                v,
            )),
        }
    } else {
        true
    }
}

/// In an ordered diagram, everything below a node bounded by `v` stays
/// above `v`.
proof fn lemma_above_from_ordered(nodes: Seq<Node>, i: int, v: Seq<char>)
    requires
        nodes_wf(nodes),
        ordered(nodes),
        0 <= i < nodes.len(),
        nodes[i] matches Node::Decision { label, .. } ==> lex_lt(v, label@),
    ensures
        labels_above(nodes, i, v),
    decreases i,
{
    match nodes[i] {
        Node::Terminal(_) => {},
        Node::Decision { label, low, high } => {
            assert(node_wf(nodes, i));
            assert(ordered_at(nodes, i));
            assert(nodes[low as int] matches Node::Decision { label: l2, .. } ==> lex_lt(
                v,
                l2@,
            )) by {
                match nodes[low as int] {
                    Node::Decision { label: l2, .. } => {
                        crate::names::lemma_lex_lt_trans(v, label@, l2@);
                    },
                    Node::Terminal(_) => {},
                }
            }
            assert(nodes[high as int] matches Node::Decision { label: l2, .. } ==> lex_lt(
                v,
                l2@,
            )) by {
                match nodes[high as int] {
                    Node::Decision { label: l2, .. } => {
                        crate::names::lemma_lex_lt_trans(v, label@, l2@);
                    },
                    Node::Terminal(_) => {},
                }
            }
            lemma_above_from_ordered(nodes, low as int, v);
            lemma_above_from_ordered(nodes, high as int, v);
        },
    }
}

/// Tracing below `i` never reads a name below its label bound.
proof fn lemma_eval_above_indep(
    nodes: Seq<Node>,
    i: int,
    v: Seq<char>,
    b: bool,
    env: Map<Seq<char>, bool>,
)
    requires
        labels_above(nodes, i, v),
    ensures
        node_eval(nodes, i, env.insert(v, b)) == node_eval(nodes, i, env),
    decreases i,
{
    if 0 <= i < nodes.len() {
        match nodes[i] {
            Node::Terminal(_) => {},
            Node::Decision { label, low, high } => {
                assert(label@ != v) by {
                    if label@ == v {
                        crate::names::lemma_lex_lt_irrefl(v);
                    }
                }
                if (low as int) < i && (high as int) < i {
                    lemma_eval_above_indep(nodes, low as int, v, b, env);
                    lemma_eval_above_indep(nodes, high as int, v, b, env);
                }
            },
        }
    }
}

/// A label bound below `i` is unaffected by nodes appended behind the ones
/// it can reach.
proof fn lemma_labels_above_frame(n1: Seq<Node>, n2: Seq<Node>, i: int, v: Seq<char>)
    requires
        0 <= i < n1.len(),
        n1.len() <= n2.len(),
        forall|j: int| 0 <= j < n1.len() ==> n1[j] == n2[j],
    ensures
        labels_above(n2, i, v) == labels_above(n1, i, v),
    decreases i,
{
    match n1[i] {
        Node::Terminal(_) => {},
        Node::Decision { label, low, high } => {
            if (low as int) < i && (high as int) < i {
                lemma_labels_above_frame(n1, n2, low as int, v);
                lemma_labels_above_frame(n1, n2, high as int, v);
            }
        },
    }
}

/// Within one maximally shared arena, handles with the same shape are the
/// same handle.
proof fn lemma_struct_eq_same_arena(nodes: Seq<Node>, i: int, j: int)
    requires
        nodes_wf(nodes),
        canonical_nodes(nodes),
        0 <= i < nodes.len(),
        0 <= j < nodes.len(),
        struct_eq(nodes, i, nodes, j),
    ensures
        i == j,
    decreases i + j,
{
    match (nodes[i], nodes[j]) {
        (Node::Terminal(a), Node::Terminal(b)) => {
            assert(term_val(nodes[i]) == Some(a) && term_val(nodes[j]) == Some(b));
        },
        (
            Node::Decision { label: l1, low: lo1, high: hi1 },
            Node::Decision { label: l2, low: lo2, high: hi2 },
        ) => {
            lemma_struct_eq_same_arena(nodes, lo1 as int, lo2 as int);
            lemma_struct_eq_same_arena(nodes, hi1 as int, hi2 as int);
            assert(dec_parts(nodes[i]) == Some((l1@, lo1 as int, hi1 as int)));
            assert(dec_parts(nodes[j]) == Some((l2@, lo2 as int, hi2 as int)));
        },
        _ => {},
    }
}

/// Two shapes that differ are told apart by some assignment, provided both
/// arenas are ordered and maximally shared.
proof fn lemma_separating_env(n1: Seq<Node>, i: int, n2: Seq<Node>, j: int)
    requires
        nodes_wf(n1),
        nodes_wf(n2),
        ordered(n1),
        ordered(n2),
        canonical_nodes(n1),
        canonical_nodes(n2),
        0 <= i < n1.len(),
        0 <= j < n2.len(),
        !struct_eq(n1, i, n2, j),
    ensures
        exists|env: Map<Seq<char>, bool>|
            node_eval(n1, i, env) != #[trigger] node_eval(n2, j, env),
    decreases (if i < j { j } else { i }),
{
    assert(node_wf(n1, i));
    assert(node_wf(n2, j));
    assert(ordered_at(n1, i));
    assert(ordered_at(n2, j));
    match (n1[i], n2[j]) {
        (Node::Terminal(a), Node::Terminal(b)) => {
            let env0 = Map::<Seq<char>, bool>::empty();
            assert(node_eval(n1, i, env0) != node_eval(n2, j, env0));
        },
        (Node::Terminal(a), Node::Decision { label: l2, low: lo2, high: hi2 }) => {
            assert(dec_parts(n2[j]) matches Some(q) && q.1 != q.2);
            if struct_eq(n2, lo2 as int, n2, hi2 as int) {
                lemma_struct_eq_same_arena(n2, lo2 as int, hi2 as int);
            }
            lemma_separating_env(n2, lo2 as int, n2, hi2 as int);
            let env0 = choose|env: Map<Seq<char>, bool>|
                node_eval(n2, lo2 as int, env) != #[trigger] node_eval(n2, hi2 as int, env);
            lemma_above_from_ordered(n2, lo2 as int, l2@);
            lemma_above_from_ordered(n2, hi2 as int, l2@);
            lemma_eval_above_indep(n2, lo2 as int, l2@, false, env0);
            lemma_eval_above_indep(n2, hi2 as int, l2@, true, env0);
            let env_f = env0.insert(l2@, false);
            let env_t = env0.insert(l2@, true);
            assert(node_eval(n2, j, env_f) == node_eval(n2, lo2 as int, env0));
            assert(node_eval(n2, j, env_t) == node_eval(n2, hi2 as int, env0));
            if node_eval(n2, j, env_f) != a {
                assert(node_eval(n1, i, env_f) != node_eval(n2, j, env_f));
            } else {
                assert(node_eval(n1, i, env_t) != node_eval(n2, j, env_t));
            }
        },
        (Node::Decision { label: l1, low: lo1, high: hi1 }, Node::Terminal(b)) => {
            assert(dec_parts(n1[i]) matches Some(q) && q.1 != q.2);
            if struct_eq(n1, lo1 as int, n1, hi1 as int) {
                lemma_struct_eq_same_arena(n1, lo1 as int, hi1 as int);
            }
            lemma_separating_env(n1, lo1 as int, n1, hi1 as int);
            let env0 = choose|env: Map<Seq<char>, bool>|
                node_eval(n1, lo1 as int, env) != #[trigger] node_eval(n1, hi1 as int, env);
            lemma_above_from_ordered(n1, lo1 as int, l1@);
            lemma_above_from_ordered(n1, hi1 as int, l1@);
            lemma_eval_above_indep(n1, lo1 as int, l1@, false, env0);
            lemma_eval_above_indep(n1, hi1 as int, l1@, true, env0);
            let env_f = env0.insert(l1@, false);
            let env_t = env0.insert(l1@, true);
            assert(node_eval(n1, i, env_f) == node_eval(n1, lo1 as int, env0));
            assert(node_eval(n1, i, env_t) == node_eval(n1, hi1 as int, env0));
            if node_eval(n1, i, env_f) != b {
                assert(node_eval(n1, i, env_f) != node_eval(n2, j, env_f));
            } else {
                assert(node_eval(n1, i, env_t) != node_eval(n2, j, env_t));
            }
        },
        (
            Node::Decision { label: l1, low: lo1, high: hi1 },
            Node::Decision { label: l2, low: lo2, high: hi2 },
        ) => {
            if lex_lt(l1@, l2@) {
                assert(dec_parts(n1[i]) matches Some(q) && q.1 != q.2);
                if struct_eq(n1, lo1 as int, n1, hi1 as int) {
                    lemma_struct_eq_same_arena(n1, lo1 as int, hi1 as int);
                }
                lemma_separating_env(n1, lo1 as int, n1, hi1 as int);
                let env0 = choose|env: Map<Seq<char>, bool>|
                    node_eval(n1, lo1 as int, env) != #[trigger] node_eval(n1, hi1 as int, env);
                lemma_above_from_ordered(n1, lo1 as int, l1@);
                lemma_above_from_ordered(n1, hi1 as int, l1@);
                lemma_above_from_ordered(n2, j, l1@);
                lemma_eval_above_indep(n1, lo1 as int, l1@, false, env0);
                lemma_eval_above_indep(n1, hi1 as int, l1@, true, env0);
                lemma_eval_above_indep(n2, j, l1@, false, env0);
                lemma_eval_above_indep(n2, j, l1@, true, env0);
                let env_f = env0.insert(l1@, false);
                let env_t = env0.insert(l1@, true);
                assert(node_eval(n1, i, env_f) == node_eval(n1, lo1 as int, env0));
                assert(node_eval(n1, i, env_t) == node_eval(n1, hi1 as int, env0));
                assert(node_eval(n2, j, env_f) == node_eval(n2, j, env0));
                assert(node_eval(n2, j, env_t) == node_eval(n2, j, env0));
                if node_eval(n1, i, env_f) != node_eval(n2, j, env_f) {
                    assert(node_eval(n1, i, env_f) != node_eval(n2, j, env_f));
                } else {
                    assert(node_eval(n1, i, env_t) != node_eval(n2, j, env_t));
                }
            } else if lex_lt(l2@, l1@) {
                assert(dec_parts(n2[j]) matches Some(q) && q.1 != q.2);
                if struct_eq(n2, lo2 as int, n2, hi2 as int) {
                    lemma_struct_eq_same_arena(n2, lo2 as int, hi2 as int);
                }
                lemma_separating_env(n2, lo2 as int, n2, hi2 as int);
                let env0 = choose|env: Map<Seq<char>, bool>|
                    node_eval(n2, lo2 as int, env) != #[trigger] node_eval(n2, hi2 as int, env);
                lemma_above_from_ordered(n2, lo2 as int, l2@);
                lemma_above_from_ordered(n2, hi2 as int, l2@);
                lemma_above_from_ordered(n1, i, l2@);
                lemma_eval_above_indep(n2, lo2 as int, l2@, false, env0);
                lemma_eval_above_indep(n2, hi2 as int, l2@, true, env0);
                lemma_eval_above_indep(n1, i, l2@, false, env0);
                lemma_eval_above_indep(n1, i, l2@, true, env0);
                let env_f = env0.insert(l2@, false);
                let env_t = env0.insert(l2@, true);
                assert(node_eval(n2, j, env_f) == node_eval(n2, lo2 as int, env0));
                assert(node_eval(n2, j, env_t) == node_eval(n2, hi2 as int, env0));
                assert(node_eval(n1, i, env_f) == node_eval(n1, i, env0));
                assert(node_eval(n1, i, env_t) == node_eval(n1, i, env0));
                if node_eval(n1, i, env_f) != node_eval(n2, j, env_f) {
                    assert(node_eval(n1, i, env_f) != node_eval(n2, j, env_f));
                } else {
                    assert(node_eval(n1, i, env_t) != node_eval(n2, j, env_t));
                }
            } else {
                crate::names::lemma_lex_lt_connected(l1@, l2@);
                assert(l1@ == l2@);
                if !struct_eq(n1, lo1 as int, n2, lo2 as int) {
                    lemma_separating_env(n1, lo1 as int, n2, lo2 as int);
                    let env0 = choose|env: Map<Seq<char>, bool>|
                        node_eval(n1, lo1 as int, env) != #[trigger] node_eval(
                            n2,
                            lo2 as int,
                            env,
                        );
                    lemma_above_from_ordered(n1, lo1 as int, l1@);
                    lemma_above_from_ordered(n2, lo2 as int, l1@);
                    lemma_eval_above_indep(n1, lo1 as int, l1@, false, env0);
                    lemma_eval_above_indep(n2, lo2 as int, l1@, false, env0);
                    let env_f = env0.insert(l1@, false);
                    assert(node_eval(n1, i, env_f) != node_eval(n2, j, env_f));
                } else {
                    assert(!struct_eq(n1, hi1 as int, n2, hi2 as int));
                    lemma_separating_env(n1, hi1 as int, n2, hi2 as int);
                    let env0 = choose|env: Map<Seq<char>, bool>|
                        node_eval(n1, hi1 as int, env) != #[trigger] node_eval(
                            n2,
                            hi2 as int,
                            env,
                        );
                    lemma_above_from_ordered(n1, hi1 as int, l1@);
                    lemma_above_from_ordered(n2, hi2 as int, l1@);
                    lemma_eval_above_indep(n1, hi1 as int, l1@, true, env0);
                    lemma_eval_above_indep(n2, hi2 as int, l1@, true, env0);
                    let env_t = env0.insert(l1@, true);
                    assert(node_eval(n1, i, env_t) != node_eval(n2, j, env_t));
                }
            }
        },
    }
}

/// Canonical uniqueness: two reduced diagrams whose variables ascend along
/// every path and which denote the same boolean function have identical
/// shape from their roots — and, both being reduced, are therefore the same
/// graph up to a renaming of handles.
pub proof fn lemma_canonical_uniqueness(d1: BinaryDecisionDiagram, d2: BinaryDecisionDiagram)
    requires
        d1.wf(),
        d2.wf(),
        ordered(d1.spec_nodes()),
        ordered(d2.spec_nodes()),
        reduced(d1.spec_nodes(), d1.spec_root()),
        reduced(d2.spec_nodes(), d2.spec_root()),
        forall|env: Map<Seq<char>, bool>| #[trigger] d1.spec_eval(env) == d2.spec_eval(env),
    ensures
        struct_eq(d1.spec_nodes(), d1.spec_root(), d2.spec_nodes(), d2.spec_root()),
{
    if !struct_eq(d1.spec_nodes(), d1.spec_root(), d2.spec_nodes(), d2.spec_root()) {
        lemma_separating_env(d1.spec_nodes(), d1.spec_root(), d2.spec_nodes(), d2.spec_root());
        let env = choose|env: Map<Seq<char>, bool>|
            node_eval(d1.spec_nodes(), d1.spec_root(), env) != #[trigger] node_eval(
                d2.spec_nodes(),
                d2.spec_root(),
                env,
            );
        assert(d1.spec_eval(env) != d2.spec_eval(env));
    }
}

/// The marked set is closed downward under child edges.
pub open spec fn mark_closed(nodes: Seq<Node>, mark: Seq<bool>, cut: int) -> bool {
    forall|p: int|
        cut <= p < nodes.len() && mark[p] ==> (#[trigger] dec_parts(nodes[p]) matches Some(q)
            ==> mark[q.1] && mark[q.2])
}

/// How a surviving old node shows up in the reduced arena: a terminal maps
/// to a terminal of the same value; a decision node whose children collapse
/// to one image maps to that image, and otherwise to a decision node on the
/// same variable over the children's images.
pub open spec fn maps_to(
    old_nodes: Seq<Node>,
    new_nodes: Seq<Node>,
    map: Seq<usize>,
    j: int,
) -> bool {
    match old_nodes[j] {
        Node::Terminal(b) => term_val(new_nodes[map[j] as int]) == Some(b),
        Node::Decision { label, low, high } => if map[low as int] == map[high as int] {
            map[j] == map[low as int]
        } else {
            dec_parts(new_nodes[map[j] as int]) == Some(
                (label@, map[low as int] as int, map[high as int] as int),
            )
        },
    }
}

/// A child of a decision node is reachable from it.
proof fn lemma_reach_child(nodes: Seq<Node>, r: int, c: int)
    requires
        0 <= r < nodes.len(),
        node_wf(nodes, r),
        nodes[r] matches Node::Decision { low, high, .. } && (c == low as int || c == high as int),
    ensures
        reachable_from(nodes, r, c),
{
    assert(reachable_from(nodes, c, c));
}

/// Reachability runs through a child edge at the far end.
proof fn lemma_reach_extend(nodes: Seq<Node>, r: int, j: int, c: int)
    requires
        nodes_wf(nodes),
        0 <= j < nodes.len(),
        reachable_from(nodes, r, j),
        nodes[j] matches Node::Decision { low, high, .. } && (c == low as int || c == high as int),
    ensures
        reachable_from(nodes, r, c),
    decreases r,
{
    if r == j {
        assert(node_wf(nodes, j));
        lemma_reach_child(nodes, j, c);
    } else {
        match nodes[r] {
            Node::Terminal(_) => {},
            Node::Decision { label, low, high } => {
                if (low as int) < r && (high as int) < r {
                    if reachable_from(nodes, low as int, j) {
                        lemma_reach_extend(nodes, low as int, j, c);
                    } else {
                        lemma_reach_extend(nodes, high as int, j, c);
                    }
                }
            },
        }
    }
}

/// A marked set closed under child edges and holding `r` holds everything
/// `r` reaches.
proof fn lemma_mark_complete(nodes: Seq<Node>, mark: Seq<bool>, r: int, i: int)
    requires
        nodes_wf(nodes),
        mark.len() == nodes.len(),
        mark_closed(nodes, mark, 0),
        0 <= r < nodes.len(),
        mark[r],
        reachable_from(nodes, r, i),
    ensures
        mark[i],
    decreases r,
{
    if r != i {
        match nodes[r] {
            Node::Terminal(_) => {},
            Node::Decision { label, low, high } => {
                assert(dec_parts(nodes[r]) matches Some(q) ==> mark[q.1] && mark[q.2]);
                if reachable_from(nodes, low as int, i) {
                    lemma_mark_complete(nodes, mark, low as int, i);
                } else {
                    lemma_mark_complete(nodes, mark, high as int, i);
                }
            },
        }
    }
}

/// The images of surviving nodes stay connected: a node reachable in the
/// old arena has its image reachable from the source's image in the new.
proof fn lemma_reach_maps(
    onodes: Seq<Node>,
    nnodes: Seq<Node>,
    map: Seq<usize>,
    mark: Seq<bool>,
    r: int,
    i: int,
)
    requires
        nodes_wf(onodes),
        nodes_wf(nnodes),
        map.len() == onodes.len(),
        mark.len() == onodes.len(),
        mark_closed(onodes, mark, 0),
        forall|j: int|
            0 <= j < onodes.len() && mark[j] ==> (#[trigger] map[j] as int) < nnodes.len()
                && maps_to(onodes, nnodes, map, j),
        0 <= r < onodes.len(),
        mark[r],
        reachable_from(onodes, r, i),
    ensures
        0 <= i < onodes.len(),
        mark[i],
        reachable_from(nnodes, map[r] as int, map[i] as int),
    decreases r,
{
    if r == i {
        assert(reachable_from(nnodes, map[r] as int, map[i] as int));
    } else {
        match onodes[r] {
            Node::Terminal(_) => {
                assert(false);
            },
            Node::Decision { label, low, high } => {
                assert(node_wf(onodes, r));
                assert(dec_parts(onodes[r]) matches Some(q) ==> mark[q.1] && mark[q.2]);
                let c: int = if reachable_from(onodes, low as int, i) {
                    low as int
                } else {
                    high as int
                };
                lemma_reach_maps(onodes, nnodes, map, mark, c, i);
                if map[low as int] == map[high as int] {
                    assert(map[r] == map[c]);
                } else {
                    assert(dec_parts(nnodes[map[r] as int]) == Some(
                        (label@, map[low as int] as int, map[high as int] as int),
                    ));
                    assert(node_wf(nnodes, map[r] as int));
                }
            },
        }
    }
}

/// The handle of the terminal holding `value`, if one exists.
fn find_terminal(nodes: &Vec<Node>, value: bool) -> (r: Option<usize>)
    ensures
        match r {
            Some(t) => t < nodes@.len() && term_val(nodes@[t as int]) == Some(value),
            None => forall|t: int|
                0 <= t < nodes@.len() ==> #[trigger] term_val(nodes@[t]) != Some(value),
        },
{
    let mut t: usize = 0;
    while t < nodes.len()
        invariant
            t <= nodes@.len(),
            forall|u: int| 0 <= u < t ==> #[trigger] term_val(nodes@[u]) != Some(value),
        decreases nodes@.len() - t,
    {
        match &nodes[t] {
            Node::Terminal(b) => {
                if *b == value {
                    return Some(t);
                }
            },
            Node::Decision { .. } => {},
        }
        t += 1;
    }
    None
}

/// The handle of the decision node with exactly this label and these
/// children, if one exists.
fn find_node(nodes: &Vec<Node>, label: &str, low: usize, high: usize) -> (r: Option<usize>)
    ensures
        match r {
            Some(k) => k < nodes@.len() && dec_parts(nodes@[k as int]) == Some(
                (label@, low as int, high as int),
            ),
            None => forall|u: int|
                0 <= u < nodes@.len() ==> #[trigger] dec_parts(nodes@[u]) != Some(
                    (label@, low as int, high as int),
                ),
        },
{
    let mut t: usize = 0;
    while t < nodes.len()
        invariant
            t <= nodes@.len(),
            forall|u: int|
                0 <= u < t ==> #[trigger] dec_parts(nodes@[u]) != Some(
                    (label@, low as int, high as int),
                ),
        decreases nodes@.len() - t,
    {
        match &nodes[t] {
            Node::Terminal(_) => {},
            Node::Decision { label: l, low: lo, high: hi } => {
                if *lo == low && *hi == high && crate::names::str_eq(l.as_str(), label) {
                    return Some(t);
                }
            },
        }
        t += 1;
    }
    None
}

impl BinaryDecisionDiagram {
    /// Canonicalize: merge all terminals of one truth value, elide decision
    /// nodes whose branches agree, share structurally identical decision
    /// nodes, and drop everything the root cannot reach.  The result denotes
    /// the same function in reduced form.
    #[verifier::rlimit(100)]
    pub fn reduce(self) -> (r: Self)
        requires
            self.wf(),
        ensures
            r.wf(),
            forall|env: Map<Seq<char>, bool>| #[trigger] r.spec_eval(env) == self.spec_eval(env),
            reduced(r.spec_nodes(), r.spec_root()),
            ordered(self.spec_nodes()) ==> ordered(r.spec_nodes()),
            reduced(self.spec_nodes(), self.spec_root()) ==> r.spec_nodes() == self.spec_nodes()
                && r.spec_root() == self.spec_root(),
    {
        let nodes = self.nodes;
        let root = self.root;
        let n = nodes.len();
        let ghost reduced_in = reduced(nodes@, root as int);
        let ghost ordered_in = ordered(nodes@);
        // Mark the nodes the root reaches.  Children sit strictly before
        // their parents, so one descending sweep reaches a fixed point.
        let mut mark: Vec<bool> = Vec::new();
        let mut i: usize = 0;
        while i < n
            invariant
                i <= n,
                mark@.len() == i,
                forall|p: int| 0 <= p < i ==> (#[trigger] mark@[p] <==> p == root as int),
            decreases n - i,
        {
            mark.push(i == root);
            i += 1;
        }
        let mut j: usize = n;
        while j > 0
            invariant
                j <= n,
                n == nodes@.len(),
                root < n,
                nodes_wf(nodes@),
                mark@.len() == n,
                mark@[root as int],
                forall|p: int|
                    0 <= p < n && #[trigger] mark@[p] ==> reachable_from(nodes@, root as int, p),
                mark_closed(nodes@, mark@, j as int),
            decreases j,
        {
            j -= 1;
            if mark[j] {
                match &nodes[j] {
                    Node::Terminal(_) => {},
                    Node::Decision { low, high, .. } => {
                        let lo = *low;
                        let hi = *high;
                        proof {
                            assert(node_wf(nodes@, j as int));
                        }
                        let ghost mark_prev = mark@;
                        mark[lo] = true;
                        mark[hi] = true;
                        proof {
                            assert(mark@[lo as int] && mark@[hi as int]);
                            assert(forall|p: int|
                                0 <= p < n && p != lo as int && p != hi as int ==> mark@[p]
                                    == #[trigger] mark_prev[p]);
                            lemma_reach_extend(nodes@, root as int, j as int, lo as int);
                            lemma_reach_extend(nodes@, root as int, j as int, hi as int);
                            assert forall|p: int|
                                0 <= p < n && #[trigger] mark@[p] implies reachable_from(
                                nodes@,
                                root as int,
                                p,
                            ) by {
                                if p != lo as int && p != hi as int {
                                    assert(mark_prev[p]);
                                }
                            }
                            assert forall|p: int|
                                j <= p < n && mark@[p] implies (#[trigger] dec_parts(nodes@[p]) matches Some(
                                q,
                            ) ==> mark@[q.1] && mark@[q.2]) by {
                                if p == j {
                                    assert(dec_parts(nodes@[p]) == Some(
                                        (nodes@[j as int]->Decision_label@, lo as int, hi as int),
                                    ));
                                } else {
                                    assert(mark@[p] == mark_prev[p]);
                                    if mark_prev[p] {
                                        assert(node_wf(nodes@, p));
                                        assert(dec_parts(nodes@[p]) matches Some(q)
                                            ==> mark_prev[q.1] && mark_prev[q.2]);
                                        assert forall|c: int|
                                            0 <= c < n && mark_prev[c] implies mark@[c] by {
                                            if c != lo as int && c != hi as int {
                                                assert(mark@[c] == mark_prev[c]);
                                            }
                                        }
                                    }
                                }
                            }
                        }
                    },
                }
            }
        }
        proof {
            if reduced_in {
                assert forall|p: int| 0 <= p < n implies mark@[p] by {
                    assert(reachable_from(nodes@, root as int, p));
                    lemma_mark_complete(nodes@, mark@, root as int, p);
                }
            }
        }
        // Rebuild bottom-up: children images exist before their parents ask
        // for them.
        let mut new_nodes: Vec<Node> = Vec::new();
        let mut map: Vec<usize> = Vec::new();
        let ghost mut creator: Seq<int> = Seq::empty();
        let mut i: usize = 0;
        while i < n
            invariant
                i <= n,
                n == nodes@.len(),
                root < n,
                nodes_wf(nodes@),
                mark@.len() == n,
                mark@[root as int],
                forall|p: int|
                    0 <= p < n && #[trigger] mark@[p] ==> reachable_from(nodes@, root as int, p),
                mark_closed(nodes@, mark@, 0),
                map@.len() == i,
                nodes_wf(new_nodes@),
                forall|a: int, b: int|
                    #![trigger term_val(new_nodes@[a]), term_val(new_nodes@[b])]
                    0 <= a < b < new_nodes@.len() ==> !(term_val(new_nodes@[a]) is Some && term_val(
                        new_nodes@[a],
                    ) == term_val(new_nodes@[b])),
                forall|a: int|
                    0 <= a < new_nodes@.len() ==> (#[trigger] dec_parts(new_nodes@[a]) matches Some(
                        q,
                    ) ==> q.1 != q.2),
                forall|a: int, b: int|
                    #![trigger dec_parts(new_nodes@[a]), dec_parts(new_nodes@[b])]
                    0 <= a < b < new_nodes@.len() ==> !(dec_parts(new_nodes@[a]) is Some
                        && dec_parts(new_nodes@[a]) == dec_parts(new_nodes@[b])),
                forall|j2: int|
                    0 <= j2 < i && mark@[j2] ==> (#[trigger] map@[j2] as int) < new_nodes@.len()
                        && maps_to(nodes@, new_nodes@, map@, j2),
                forall|j2: int, env: Map<Seq<char>, bool>|
                    0 <= j2 < i && mark@[j2] ==> node_eval(new_nodes@, map@[j2] as int, env)
                        == #[trigger] node_eval(nodes@, j2, env),
                creator.len() == new_nodes@.len(),
                forall|m: int|
                    0 <= m < new_nodes@.len() ==> 0 <= #[trigger] creator[m] < i
                        && mark@[creator[m]] && map@[creator[m]] as int == m,
                reduced_in == reduced(nodes@, root as int),
                ordered_in == ordered(nodes@),
                ordered_in ==> ordered(new_nodes@),
                ordered_in ==> (forall|j2: int, v: Seq<char>|
                    0 <= j2 < i && mark@[j2] && #[trigger] labels_above(nodes@, j2, v)
                        ==> labels_above(new_nodes@, map@[j2] as int, v)),
                reduced_in ==> (forall|p: int| 0 <= p < n ==> #[trigger] mark@[p]),
                reduced_in ==> new_nodes@.len() == i,
                reduced_in ==> (forall|j2: int| 0 <= j2 < i ==> #[trigger] map@[j2] as int == j2),
                reduced_in ==> (forall|j2: int|
                    0 <= j2 < i ==> #[trigger] new_nodes@[j2] == nodes@[j2]),
            decreases n - i,
        {
            let ghost prev = new_nodes@;
            let ghost map_prev = map@;
            if !mark[i] {
                proof {
                    if reduced_in {
                        assert(mark@[i as int]);
                    }
                }
                map.push(0);
            } else {
                match &nodes[i] {
                    Node::Terminal(b) => {
                        match find_terminal(&new_nodes, *b) {
                            Some(t) => {
                                proof {
                                    assert(new_nodes@[t as int] == Node::Terminal(*b));
                                    if reduced_in {
                                        assert(new_nodes@[t as int] == nodes@[t as int]);
                                        assert(term_val(nodes@[t as int]) == Some(*b));
                                        assert(term_val(nodes@[i as int]) == Some(*b));
                                        assert(false);
                                    }
                                }
                                map.push(t);
                            },
                            None => {
                                new_nodes.push(Node::Terminal(*b));
                                map.push(new_nodes.len() - 1);
                                proof {
                                    creator = creator.push(i as int);
                                }
                            },
                        }
                    },
                    Node::Decision { label, low, high } => {
                        proof {
                            assert(node_wf(nodes@, i as int));
                            assert(dec_parts(nodes@[i as int]) matches Some(q) ==> mark@[q.1]
                                && mark@[q.2]);
                        }
                        let a = map[*low];
                        let b2 = map[*high];
                        if a == b2 {
                            proof {
                                if reduced_in {
                                    assert(map@[(*low) as int] as int == (*low) as int);
                                    assert(map@[(*high) as int] as int == (*high) as int);
                                    assert(dec_parts(nodes@[i as int]) matches Some(q) && q.1
                                        == q.2);
                                    assert(false);
                                }
                            }
                            map.push(a);
                        } else {
                            match find_node(&new_nodes, label.as_str(), a, b2) {
                                Some(k) => {
                                    proof {
                                        assert(node_wf(new_nodes@, k as int));
                                        assert(new_nodes@[k as int] matches Node::Decision {
                                            label: l2,
                                            low: lo2,
                                            high: hi2,
                                        } && l2@ == label@ && lo2 == a && hi2 == b2);
                                        if reduced_in {
                                            assert(new_nodes@[k as int] == nodes@[k as int]);
                                            assert(map@[(*low) as int] as int == (*low) as int);
                                            assert(map@[(*high) as int] as int == (*high) as int);
                                            assert(dec_parts(nodes@[k as int]) == Some(
                                                (label@, (*low) as int, (*high) as int),
                                            ));
                                            assert(dec_parts(nodes@[i as int]) == Some(
                                                (label@, (*low) as int, (*high) as int),
                                            ));
                                            assert(false);
                                        }
                                    }
                                    map.push(k);
                                },
                                None => {
                                    new_nodes.push(
                                        Node::Decision { label: label.clone(), low: a, high: b2 },
                                    );
                                    proof {
                                        assert(a < new_nodes@.len() - 1 && b2 < new_nodes@.len()
                                            - 1);
                                        assert(node_wf(new_nodes@, (new_nodes@.len() - 1) as int));
                                    }
                                    map.push(new_nodes.len() - 1);
                                    proof {
                                        creator = creator.push(i as int);
                                    }
                                },
                            }
                        }
                    },
                }
            }
            i += 1;
            proof {
                assert forall|c: int| 0 <= c < new_nodes@.len() implies node_wf(new_nodes@, c) by {
                    if c < prev.len() {
                        assert(new_nodes@[c] == prev[c]);
                        assert(node_wf(prev, c));
                    }
                }
                assert forall|j2: int|
                    0 <= j2 < i && mark@[j2] implies (#[trigger] map@[j2] as int)
                    < new_nodes@.len() && maps_to(nodes@, new_nodes@, map@, j2) by {
                    if j2 < i - 1 {
                        assert(map@[j2] == map_prev[j2]);
                        assert(maps_to(nodes@, prev, map_prev, j2));
                        match nodes@[j2] {
                            Node::Terminal(_) => {},
                            Node::Decision { label, low, high } => {
                                assert(node_wf(nodes@, j2));
                                assert(map@[low as int] == map_prev[low as int]);
                                assert(map@[high as int] == map_prev[high as int]);
                            },
                        }
                    } else {
                        assert(maps_to(nodes@, new_nodes@, map@, j2));
                    }
                }
                if ordered_in {
                    assert forall|t: int| 0 <= t < new_nodes@.len() implies ordered_at(
                        new_nodes@,
                        t,
                    ) by {
                        if t < prev.len() {
                            assert(new_nodes@[t] == prev[t]);
                            assert(ordered_at(prev, t));
                            assert(node_wf(prev, t));
                            match prev[t] {
                                Node::Terminal(_) => {},
                                Node::Decision { label, low, high } => {
                                    assert(new_nodes@[low as int] == prev[low as int]);
                                    assert(new_nodes@[high as int] == prev[high as int]);
                                },
                            }
                        } else {
                            match nodes@[i - 1] {
                                Node::Terminal(_) => {},
                                Node::Decision { label, low, high } => {
                                    assert(node_wf(nodes@, i - 1));
                                    assert(ordered_at(nodes@, i - 1));
                                    assert(mark@[low as int] && mark@[high as int]);
                                    lemma_above_from_ordered(nodes@, low as int, label@);
                                    lemma_above_from_ordered(nodes@, high as int, label@);
                                    assert(labels_above(nodes@, low as int, label@));
                                    assert(labels_above(nodes@, high as int, label@));
                                    assert(labels_above(prev, map_prev[low as int] as int, label@));
                                    assert(labels_above(
                                        prev,
                                        map_prev[high as int] as int,
                                        label@,
                                    ));
                                    lemma_labels_above_frame(
                                        prev,
                                        new_nodes@,
                                        map_prev[low as int] as int,
                                        label@,
                                    );
                                    lemma_labels_above_frame(
                                        prev,
                                        new_nodes@,
                                        map_prev[high as int] as int,
                                        label@,
                                    );
                                    assert(labels_above(
                                        new_nodes@,
                                        map@[low as int] as int,
                                        label@,
                                    ));
                                    assert(labels_above(
                                        new_nodes@,
                                        map@[high as int] as int,
                                        label@,
                                    ));
                                },
                            }
                        }
                    }
                    assert forall|j2: int, v: Seq<char>|
                        0 <= j2 < i && mark@[j2] && #[trigger] labels_above(
                            nodes@,
                            j2,
                            v,
                        ) implies labels_above(new_nodes@, map@[j2] as int, v) by {
                        if j2 < i - 1 {
                            assert(map@[j2] == map_prev[j2]);
                            assert(labels_above(prev, map_prev[j2] as int, v));
                            lemma_labels_above_frame(prev, new_nodes@, map_prev[j2] as int, v);
                        } else {
                            match nodes@[j2] {
                                Node::Terminal(_) => {
                                    assert(maps_to(nodes@, new_nodes@, map@, j2));
                                },
                                Node::Decision { label, low, high } => {
                                    assert(node_wf(nodes@, j2));
                                    assert(mark@[low as int] && mark@[high as int]);
                                    assert(labels_above(nodes@, low as int, v));
                                    assert(labels_above(nodes@, high as int, v));
                                    assert(labels_above(prev, map_prev[low as int] as int, v));
                                    assert(labels_above(prev, map_prev[high as int] as int, v));
                                    lemma_labels_above_frame(
                                        prev,
                                        new_nodes@,
                                        map_prev[low as int] as int,
                                        v,
                                    );
                                    lemma_labels_above_frame(
                                        prev,
                                        new_nodes@,
                                        map_prev[high as int] as int,
                                        v,
                                    );
                                    assert(maps_to(nodes@, new_nodes@, map@, j2));
                                },
                            }
                        }
                    }
                }
                assert forall|j2: int, env: Map<Seq<char>, bool>|
                    0 <= j2 < i && mark@[j2] implies node_eval(new_nodes@, map@[j2] as int, env)
                    == node_eval(nodes@, j2, env) by {
                    if j2 < i - 1 {
                        assert(node_eval(prev, map_prev[j2] as int, env) == node_eval(
                            nodes@,
                            j2,
                            env,
                        ));
                        lemma_node_eval_frame(prev, new_nodes@, map_prev[j2] as int, env);
                    } else {
                        match nodes@[j2] {
                            Node::Terminal(_) => {},
                            Node::Decision { label, low, high } => {
                                assert(node_wf(nodes@, j2));
                                assert(node_eval(prev, map_prev[low as int] as int, env)
                                    == node_eval(nodes@, low as int, env));
                                assert(node_eval(prev, map_prev[high as int] as int, env)
                                    == node_eval(nodes@, high as int, env));
                                lemma_node_eval_frame(
                                    prev,
                                    new_nodes@,
                                    map_prev[low as int] as int,
                                    env,
                                );
                                lemma_node_eval_frame(
                                    prev,
                                    new_nodes@,
                                    map_prev[high as int] as int,
                                    env,
                                );
                            },
                        }
                    }
                }
                if reduced_in {
                    assert(new_nodes@.len() == i);
                    assert forall|j2: int| 0 <= j2 < i implies #[trigger] map@[j2] as int == j2 by {
                        if j2 < i - 1 {
                            assert(map@[j2] == map_prev[j2]);
                        }
                    }
                    assert forall|j2: int|
                        0 <= j2 < i implies #[trigger] new_nodes@[j2] == nodes@[j2] by {
                        if j2 < i - 1 {
                            assert(new_nodes@[j2] == prev[j2]);
                        }
                    }
                }
                assert forall|m: int| 0 <= m < new_nodes@.len() implies 0 <= #[trigger] creator[m]
                    < i && mark@[creator[m]] && map@[creator[m]] as int == m by {
                    if m < prev.len() {
                        let w = creator[m];
                        assert(0 <= w < i - 1 && mark@[w] && map_prev[w] as int == m);
                        assert(map@[w] == map_prev[w]);
                    } else {
                        assert(creator[m] == i - 1);
                        assert(mark@[i - 1] && map@[i - 1] as int == m);
                    }
                }
            }
        }
        let new_root = map[root];
        let result = BinaryDecisionDiagram { nodes: new_nodes, root: new_root };
        proof {
            assert forall|m: int|
                0 <= m < result.spec_nodes().len() implies reachable_from(
                result.spec_nodes(),
                result.spec_root(),
                m,
            ) by {
                let w = creator[m];
                assert(0 <= w < n && mark@[w] && map@[w] as int == m);
                lemma_reach_maps(
                    nodes@,
                    result.spec_nodes(),
                    map@,
                    mark@,
                    root as int,
                    w,
                );
            }
            if reduced_in {
                assert(result.spec_nodes() =~= nodes@);
                assert(map@[root as int] as int == root as int);
            }
            if ordered_in {
                assert(ordered(result.spec_nodes()));
            }
            assert forall|env: Map<Seq<char>, bool>| #[trigger] result.spec_eval(env)
                == self.spec_eval(env) by {
                assert(node_eval(result.spec_nodes(), map@[root as int] as int, env) == node_eval(
                    nodes@,
                    root as int,
                    env,
                ));
            }
        }
        result
    }
}

impl BinaryDecisionDiagram {
    /// Existential elimination of a variable: the disjunction of the two
    /// cofactors, in reduced form.
    pub fn exists_elim(&self, variable_name: &str) -> (r: Self)
        requires
            self.wf(),
        ensures
            r.wf(),
            reduced(r.spec_nodes(), r.spec_root()),
            ordered(self.spec_nodes()) ==> ordered(r.spec_nodes()),
            forall|env: Map<Seq<char>, bool>| #[trigger] r.spec_eval(env) == (self.spec_eval(
                env.insert(variable_name@, false),
            ) || self.spec_eval(env.insert(variable_name@, true))),
    {
        let mut restrict_false = self.clone();
        restrict_false.restrict(variable_name, false);
        let mut restrict_true = self.clone();
        restrict_true.restrict(variable_name, true);
        restrict_false.apply(&restrict_true, BooleanOperator::disjunction()).reduce()
    }

    /// Universal elimination of a variable: the conjunction of the two
    /// cofactors, in reduced form.
    pub fn universal(&self, variable_name: &str) -> (r: Self)
        requires
            self.wf(),
        ensures
            r.wf(),
            reduced(r.spec_nodes(), r.spec_root()),
            ordered(self.spec_nodes()) ==> ordered(r.spec_nodes()),
            forall|env: Map<Seq<char>, bool>| #[trigger] r.spec_eval(env) == (self.spec_eval(
                env.insert(variable_name@, false),
            ) && self.spec_eval(env.insert(variable_name@, true))),
    {
        let mut restrict_false = self.clone();
        restrict_false.restrict(variable_name, false);
        let mut restrict_true = self.clone();
        restrict_true.restrict(variable_name, true);
        restrict_false.apply(&restrict_true, BooleanOperator::conjunction()).reduce()
    }

    /// Parse `code` and expand the resulting formula into a full decision
    /// tree, exactly as [`Self::from_formula`] does.
    pub fn from_str(code: &str) -> (r: Self)
        requires
            spec_parse_expression(code@, 0) is Some,
        ensures
            r.wf(),
            ordered(r.spec_nodes()),
            forall|env: Map<Seq<char>, bool>| #[trigger] r.spec_eval(env) == form_eval(
                spec_parse_expression(code@, 0)->Some_0.1,
                env,
            ),
            r.spec_nodes().len() == pow2(
                (form_vars(spec_parse_expression(code@, 0)->Some_0.1).len() + 1) as nat,
            ) - 1,
    {
        match crate::formula::expression::parse_at(code, 0) {
            Some((_rest, e)) => Self::from_formula(&e),
            None => vstd::pervasive::unreached(),
        }
    }

    /// The names tested by the diagram's decision nodes, in ascending
    /// order.
    pub fn variables(&self) -> (r: Vec<String>)
        ensures
            strict_sorted(name_seq(r@)),
            forall|v: Seq<char>|
                #[trigger] name_set(r@).contains(v) <==> exists|j: int|
                    0 <= j < self.spec_nodes().len() && (#[trigger] dec_parts(
                        self.spec_nodes()[j],
                    ) matches Some(q) && q.0 == v),
    {
        let mut acc: Vec<String> = Vec::new();
        let mut i: usize = 0;
        while i < self.nodes.len()
            invariant
                i <= self.spec_nodes().len(),
                strict_sorted(name_seq(acc@)),
                forall|v: Seq<char>|
                    #[trigger] name_set(acc@).contains(v) <==> exists|j: int|
                        0 <= j < i && (#[trigger] dec_parts(self.spec_nodes()[j]) matches Some(q)
                            && q.0 == v),
            decreases self.spec_nodes().len() - i,
        {
            let ghost acc_prev = acc@;
            match &self.nodes[i] {
                Node::Terminal(_) => {},
                Node::Decision { label, .. } => {
                    crate::names::sorted_insert(&mut acc, label.as_str());
                },
            }
            i += 1;
            proof {
                assert forall|v: Seq<char>| #[trigger] name_set(acc@).contains(v) implies exists|
                    j: int,
                |
                    0 <= j < i && (#[trigger] dec_parts(self.spec_nodes()[j]) matches Some(q) && q.0
                        == v) by {
                    if name_set(acc_prev).contains(v) {
                        let w = choose|j: int|
                            0 <= j < i - 1 && (#[trigger] dec_parts(
                                self.spec_nodes()[j],
                            ) matches Some(q) && q.0 == v);
                        assert(dec_parts(self.spec_nodes()[w]) matches Some(q) && q.0 == v);
                    } else {
                        assert(dec_parts(self.spec_nodes()[i - 1]) matches Some(q) && q.0 == v);
                    }
                }
                assert forall|v: Seq<char>|
                    (exists|j: int|
                        0 <= j < i && (#[trigger] dec_parts(self.spec_nodes()[j]) matches Some(q)
                            && q.0 == v)) implies name_set(acc@).contains(v) by {
                    let w = choose|j: int|
                        0 <= j < i && (#[trigger] dec_parts(self.spec_nodes()[j]) matches Some(q)
                            && q.0 == v);
                    if w < i - 1 {
                        assert(name_set(acc_prev).contains(v));
                    }
                }
            }
        }
        acc
    }
}

/// The decimal digit characters, lowest value first.
pub open spec fn digit_char(d: nat) -> char {
    if d == 0 {
        '0'
    } else if d == 1 {
        '1'
    } else if d == 2 {
        '2'
    } else if d == 3 {
        '3'
    } else if d == 4 {
        '4'
    } else if d == 5 {
        '5'
    } else if d == 6 {
        '6'
    } else if d == 7 {
        '7'
    } else if d == 8 {
        '8'
    } else {
        '9'
    }
}

/// The decimal digits of `x`, most significant first.
pub open spec fn decimal(x: nat) -> Seq<char>
    decreases x,
{
    if x < 10 {
        seq![digit_char(x)]
    } else {
        decimal(x / 10) + seq![digit_char(x % 10)]
    }
}

/// One decimal digit as text.
fn digit_text(d: usize) -> (r: String)
    requires
        d < 10,
    ensures
        r@ =~= seq![digit_char(d as nat)],
{
    let table = "0123456789";
    proof {
        reveal_strlit("0123456789");
    }
    let piece = table.substring_char(d, d + 1);
    piece.to_owned()
}

/// The decimal rendering of a handle.
fn number_text(x: usize) -> (r: String)
    ensures
        r@ == decimal(x as nat),
    decreases x,
{
    if x < 10 {
        digit_text(x)
    } else {
        let mut head = number_text(x / 10);
        let tail = digit_text(x % 10);
        head.append(tail.as_str());
        proof {
            assert(head@ =~= decimal((x / 10) as nat) + seq![digit_char((x % 10) as nat)]);
        }
        head
    }
}

/// The text naming a node in the exported graph.
pub open spec fn label_text(n: Node) -> Seq<char> {
    match n {
        Node::Terminal(b) => if b {
            "true"@
        } else {
            "false"@
        },
        Node::Decision { label, .. } => label@,
    }
}

/// The line declaring node `i`.
pub open spec fn dot_node_line(nodes: Seq<Node>, i: int) -> Seq<char> {
    "    "@ + decimal(i as nat) + " [ label = \""@ + label_text(nodes[i]) + "\" ]\n"@
}

/// The node declarations for the first `upto` nodes.
pub open spec fn dot_node_lines(nodes: Seq<Node>, upto: int) -> Seq<char>
    decreases upto,
{
    if upto <= 0 || upto > nodes.len() {
        Seq::empty()
    } else {
        dot_node_lines(nodes, upto - 1) + dot_node_line(nodes, upto - 1)
    }
}

/// The two labelled edges leaving node `i`, or nothing for a terminal.
pub open spec fn dot_edge_lines_at(nodes: Seq<Node>, i: int) -> Seq<char> {
    match nodes[i] {
        Node::Terminal(_) => Seq::empty(),
        Node::Decision { label, low, high } => "    "@ + decimal(i as nat) + " -> "@ + decimal(
            low as nat,
        ) + " [ label = \"false\" ]\n"@ + "    "@ + decimal(i as nat) + " -> "@ + decimal(
            high as nat,
        ) + " [ label = \"true\" ]\n"@,
    }
}

/// The edge declarations for the first `upto` nodes.
pub open spec fn dot_edge_lines(nodes: Seq<Node>, upto: int) -> Seq<char>
    decreases upto,
{
    if upto <= 0 || upto > nodes.len() {
        Seq::empty()
    } else {
        dot_edge_lines(nodes, upto - 1) + dot_edge_lines_at(nodes, upto - 1)
    }
}

/// The whole exported text: a directed graph whose nodes carry their label
/// and whose edges carry the branch they follow.
pub open spec fn dot_text(nodes: Seq<Node>) -> Seq<char> {
    "digraph {\n"@ + dot_node_lines(nodes, nodes.len() as int) + dot_edge_lines(
        nodes,
        nodes.len() as int,
    ) + "}\n"@
}

impl BinaryDecisionDiagram {
    /// A read-only textual view of the graph for visualization tooling; it
    /// is not re-importable.
    pub fn dot(&self) -> (r: String)
        ensures
            r@ == dot_text(self.spec_nodes()),
    {
        let n = self.nodes.len();
        let mut out = String::from_str("digraph {\n");
        let mut i: usize = 0;
        while i < n
            invariant
                i <= n,
                n == self.spec_nodes().len(),
                out@ == "digraph {\n"@ + dot_node_lines(self.spec_nodes(), i as int),
            decreases n - i,
        {
            let ghost before = out@;
            out.append("    ");
            let id = number_text(i);
            out.append(id.as_str());
            out.append(" [ label = \"");
            match &self.nodes[i] {
                Node::Terminal(b) => {
                    if *b {
                        out.append("true");
                    } else {
                        out.append("false");
                    }
                },
                Node::Decision { label, .. } => {
                    out.append(label.as_str());
                },
            }
            out.append("\" ]\n");
            i += 1;
            proof {
                assert(out@ =~= before + dot_node_line(self.spec_nodes(), i - 1));
                assert(out@ =~= "digraph {\n"@ + dot_node_lines(self.spec_nodes(), i as int));
            }
        }
        let ghost after_nodes = out@;
        let mut i: usize = 0;
        while i < n
            invariant
                i <= n,
                n == self.spec_nodes().len(),
                after_nodes == "digraph {\n"@ + dot_node_lines(self.spec_nodes(), n as int),
                out@ == after_nodes + dot_edge_lines(self.spec_nodes(), i as int),
            decreases n - i,
        {
            let ghost before = out@;
            match &self.nodes[i] {
                Node::Terminal(_) => {
                    proof {
                        assert(out@ =~= before + dot_edge_lines_at(self.spec_nodes(), i as int));
                    }
                },
                Node::Decision { label: _, low, high } => {
                    let id = number_text(i);
                    out.append("    ");
                    out.append(id.as_str());
                    out.append(" -> ");
                    let low_id = number_text(*low);
                    out.append(low_id.as_str());
                    out.append(" [ label = \"false\" ]\n");
                    out.append("    ");
                    out.append(id.as_str());
                    out.append(" -> ");
                    let high_id = number_text(*high);
                    out.append(high_id.as_str());
                    out.append(" [ label = \"true\" ]\n");
                    proof {
                        assert(out@ =~= before + dot_edge_lines_at(self.spec_nodes(), i as int));
                    }
                },
            }
            i += 1;
            proof {
                assert(out@ =~= after_nodes + dot_edge_lines(self.spec_nodes(), i as int));
            }
        }
        out.append("}\n");
        proof {
            assert(out@ =~= dot_text(self.spec_nodes()));
        }
        out
    }
}

impl Clone for BinaryDecisionDiagram {
    /// A structurally identical copy in fresh storage.
    fn clone(&self) -> (r: Self)
        ensures
            r.spec_nodes() == self.spec_nodes(),
            r.spec_root() == self.spec_root(),
    {
        let mut nodes: Vec<Node> = Vec::new();
        let mut i: usize = 0;
        while i < self.nodes.len()
            invariant
                i <= self.spec_nodes().len(),
                nodes@.len() == i,
                forall|j: int| 0 <= j < i ==> nodes@[j] == self.spec_nodes()[j],
            decreases self.spec_nodes().len() - i,
        {
            let copy = match &self.nodes[i] {
                Node::Terminal(b) => Node::Terminal(*b),
                Node::Decision { label, low, high } => Node::Decision {
                    label: label.clone(),
                    low: *low,
                    high: *high,
                },
            };
            nodes.push(copy);
            i += 1;
        }
        proof {
            assert(nodes@ =~= self.spec_nodes());
        }
        BinaryDecisionDiagram { nodes, root: self.root }
    }
}

} // verus!
