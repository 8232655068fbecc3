use bdd::assignment::Assignment;
use bdd::binary_decision_diagram::{BinaryDecisionDiagram, BooleanOperator};
use bdd::formula::expression;

fn same_shape(a: &BinaryDecisionDiagram, ai: usize, b: &BinaryDecisionDiagram, bi: usize) -> bool {
    match (a.terminal_value(ai), b.terminal_value(bi)) {
        (Some(x), Some(y)) => x == y,
        (None, None) => {
            let (la, alo, ahi) = a.decision_parts(ai).unwrap();
            let (lb, blo, bhi) = b.decision_parts(bi).unwrap();
            la == lb && same_shape(a, alo, b, blo) && same_shape(a, ahi, b, bhi)
        }
        _ => false,
    }
}

fn isomorphic(a: &BinaryDecisionDiagram, b: &BinaryDecisionDiagram) -> bool {
    a.node_count() == b.node_count()
        && same_shape(a, a.root_index(), b, b.root_index())
}

fn assignment(pairs: &[(&str, bool)]) -> Assignment {
    let mut ctx = Assignment::new();
    for (name, value) in pairs {
        ctx.insert((*name).to_string(), *value);
    }
    ctx
}

#[test]
fn builder_full_tree_for_two_variables() {
    let d = BinaryDecisionDiagram::from_str("x&y");
    assert_eq!(d.node_count(), 7);
    let (label, _, _) = d.decision_parts(d.root_index()).unwrap();
    assert_eq!(label, "x");
    let mut x_nodes = 0;
    let mut y_nodes = 0;
    let mut terminals = 0;
    for i in 0..d.node_count() {
        match d.decision_parts(i) {
            Some((label, _, _)) if label == "x" => x_nodes += 1,
            Some((label, _, _)) if label == "y" => y_nodes += 1,
            Some(_) => unreachable!(),
            None => terminals += 1,
        }
    }
    assert_eq!((x_nodes, y_nodes, terminals), (1, 2, 4));
}

#[test]
fn reduce_collapses_conjunction_to_four_nodes() {
    let d = BinaryDecisionDiagram::from_str("x&y").reduce();
    assert_eq!(d.node_count(), 4);
    assert_eq!(d.edge_count(), 4);
    let (root_label, root_low, root_high) = d.decision_parts(d.root_index()).unwrap();
    assert_eq!(root_label, "x");
    assert_eq!(d.terminal_value(root_low), Some(false));
    let (y_label, y_low, y_high) = d.decision_parts(root_high).unwrap();
    assert_eq!(y_label, "y");
    assert_eq!(d.terminal_value(y_low), Some(false));
    assert_eq!(d.terminal_value(y_high), Some(true));
}

#[test]
fn constant_formula_is_a_single_terminal() {
    let built = BinaryDecisionDiagram::from_str("true");
    assert_eq!(built.node_count(), 1);
    assert_eq!(built.terminal_value(built.root_index()), Some(true));
    let reduced = built.reduce();
    assert_eq!(reduced.node_count(), 1);
    assert_eq!(reduced.edge_count(), 0);
    assert_eq!(reduced.terminal_value(reduced.root_index()), Some(true));
}

#[test]
fn apply_or_matches_parsed_disjunction() {
    let x = BinaryDecisionDiagram::from_str("x");
    let y = BinaryDecisionDiagram::from_str("y");
    let combined = x.apply(&y, BooleanOperator::disjunction()).reduce();
    let direct = BinaryDecisionDiagram::from_str("x|y").reduce();
    assert!(isomorphic(&combined, &direct));
}

#[test]
fn restrict_conjunction_to_false_terminal() {
    let mut d = BinaryDecisionDiagram::from_str("x&y").reduce();
    d.restrict("y", false);
    let d = d.reduce();
    assert_eq!(d.node_count(), 1);
    assert_eq!(d.terminal_value(d.root_index()), Some(false));
}

#[test]
fn reduce_is_idempotent() {
    for code in ["x&y", "x|y&z", "!(a&b)|c", "true", "a&!a"] {
        let once = BinaryDecisionDiagram::from_str(code).reduce();
        let twice = once.clone().reduce();
        assert!(isomorphic(&once, &twice));
    }
}

#[test]
fn builder_and_reducer_preserve_semantics() {
    let expr = expression::parse("!(a&b)|c").unwrap().1;
    let built = BinaryDecisionDiagram::from_formula(&expr);
    let reduced = built.clone().reduce();
    for bits in 0..8u32 {
        let ctx = assignment(&[
            ("a", bits & 1 != 0),
            ("b", bits & 2 != 0),
            ("c", bits & 4 != 0),
        ]);
        let direct = expr.eval(&ctx);
        assert_eq!(built.evaluate(&ctx), direct);
        assert_eq!(reduced.evaluate(&ctx), direct);
    }
}

#[test]
fn apply_traces_operator_pointwise() {
    let f1 = expression::parse("a&b").unwrap().1;
    let f2 = expression::parse("a&c").unwrap().1;
    let d1 = BinaryDecisionDiagram::from_formula(&f1);
    let d2 = BinaryDecisionDiagram::from_formula(&f2);
    for (op, name) in [
        (BooleanOperator::disjunction(), "or"),
        (BooleanOperator::conjunction(), "and"),
    ] {
        let combined = d1.apply(&d2, op).reduce();
        for bits in 0..8u32 {
            let ctx = assignment(&[
                ("a", bits & 1 != 0),
                ("b", bits & 2 != 0),
                ("c", bits & 4 != 0),
            ]);
            let left = f1.eval(&ctx);
            let right = f2.eval(&ctx);
            let expected = match name {
                "or" => left || right,
                _ => left && right,
            };
            assert_eq!(combined.evaluate(&ctx), expected);
        }
    }
}

#[test]
fn restrict_traces_the_cofactor() {
    let expr = expression::parse("x&y|z").unwrap().1;
    for value in [false, true] {
        let mut d = BinaryDecisionDiagram::from_formula(&expr).reduce();
        d.restrict("x", value);
        for bits in 0..4u32 {
            let partial = assignment(&[("y", bits & 1 != 0), ("z", bits & 2 != 0)]);
            let mut total = assignment(&[("y", bits & 1 != 0), ("z", bits & 2 != 0)]);
            total.insert("x".to_string(), value);
            assert_eq!(d.evaluate(&partial), expr.eval(&total));
        }
    }
}

#[test]
fn quantifiers_trace_both_cofactors() {
    let expr = expression::parse("x&y").unwrap().1;
    let d = BinaryDecisionDiagram::from_formula(&expr).reduce();
    let some = d.exists_elim("x");
    let all = d.universal("x");
    for y in [false, true] {
        let ctx = assignment(&[("y", y)]);
        let at_false = expr.eval(&assignment(&[("x", false), ("y", y)]));
        let at_true = expr.eval(&assignment(&[("x", true), ("y", y)]));
        assert_eq!(some.evaluate(&ctx), at_false || at_true);
        assert_eq!(all.evaluate(&ctx), at_false && at_true);
    }
}

#[test]
fn equivalent_formulas_reduce_to_isomorphic_diagrams() {
    let pairs = [
        ("x|y", "y|x"),
        ("!(a&b)", "!a|!b"),
        ("x&y|x&z", "x&(y|z)"),
        ("a&!a", "false"),
    ];
    for (left, right) in pairs {
        let dl = BinaryDecisionDiagram::from_str(left).reduce();
        let dr = BinaryDecisionDiagram::from_str(right).reduce();
        assert!(isomorphic(&dl, &dr), "{} vs {}", left, right);
    }
}

#[test]
fn malformed_text_is_rejected() {
    assert!(expression::parse("").is_none());
    assert!(expression::parse("&x").is_none());
    assert!(expression::parse("|").is_none());
    assert!(expression::parse("(x").is_none());
}

#[test]
fn parse_reports_the_unconsumed_remainder() {
    let (rest, _) = expression::parse("x&").unwrap();
    assert_eq!(rest, "&");
    let (rest, value) = expression::parse("truex").unwrap();
    assert_eq!(rest, "x");
    let mut ctx = Assignment::new();
    ctx.insert("x".to_string(), false);
    assert_eq!(value.eval(&ctx), true);
}

#[test]
fn boolean_operator_tables() {
    let or = BooleanOperator::disjunction();
    let and = BooleanOperator::conjunction();
    for a in [false, true] {
        for b in [false, true] {
            assert_eq!(or.eval2(a, b), a || b);
            assert_eq!(and.eval2(a, b), a && b);
        }
    }
}

#[test]
fn diagram_variables_are_sorted_labels() {
    let d = BinaryDecisionDiagram::from_str("b&a|c").reduce();
    let vars = d.variables();
    assert_eq!(vars, vec!["a".to_string(), "b".to_string(), "c".to_string()]);
    let constant = BinaryDecisionDiagram::from_str("true");
    assert!(constant.variables().is_empty());
}

#[test]
fn dot_names_every_node_and_edge() {
    let constant = BinaryDecisionDiagram::from_str("true");
    assert_eq!(constant.dot(), "digraph {\n    0 [ label = \"true\" ]\n}\n");
    let d = BinaryDecisionDiagram::from_str("x&y").reduce();
    let text = d.dot();
    assert!(text.starts_with("digraph {\n"));
    assert!(text.ends_with("}\n"));
    assert!(text.contains("[ label = \"x\" ]"));
    assert!(text.contains("[ label = \"y\" ]"));
    assert!(text.contains(" [ label = \"false\" ]\n"));
    assert!(text.contains(" [ label = \"true\" ]\n"));
    assert_eq!(text.matches(" -> ").count(), 4);
}

#[test]
fn assignment_later_insertion_wins() {
    let mut ctx = Assignment::new();
    ctx.insert("x".to_string(), true);
    ctx.insert("x".to_string(), false);
    assert_eq!(ctx.get("x"), Some(false));
    assert_eq!(ctx.get("y"), None);
}
