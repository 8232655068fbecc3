use bdd::assignment::Assignment;
use bdd::formula::and::{self, And, AndOperand};
use bdd::formula::atom::{self, Atom};
use bdd::formula::expression::{self, Expression};
use bdd::formula::in_brackets::{self, InBrackets};
use bdd::formula::not::{self, Not, NotOperand};
use bdd::formula::or::{self, Or, OrOperand};

#[test]
fn and_test_parse() {
    assert_eq!(
        and::parse("x&y").unwrap(),
        (
            "".to_string(),
            And(
                AndOperand::Atom(Atom::Variable("x".to_string())),
                AndOperand::Atom(Atom::Variable("y".to_string()))
            )
        )
    );
    assert_eq!(
        and::parse("x&!y").unwrap(),
        (
            "".to_string(),
            And(
                AndOperand::Atom(Atom::Variable("x".to_string())),
                AndOperand::Not(Not(NotOperand::Atom(Atom::Variable("y".to_string()))))
            )
        )
    );
    assert_eq!(
        and::parse("x&y&z").unwrap(),
        (
            "".to_string(),
            And(
                AndOperand::And(Box::new(And(
                    AndOperand::Atom(Atom::Variable("x".to_string())),
                    AndOperand::Atom(Atom::Variable("y".to_string()))
                ))),
                AndOperand::Atom(Atom::Variable("z".to_string()))
            )
        )
    );
}

#[test]
fn and_test_eval() {
    let mut ctx = Assignment::new();
    ctx.insert("x".to_string(), true);
    ctx.insert("y".to_string(), false);
    ctx.insert("z".to_string(), true);
    let x_and_y = and::parse("x&y").unwrap().1;
    let x_and_not_y = and::parse("x&!y").unwrap().1;
    let x_and_y_and_z = and::parse("x&y&z").unwrap().1;
    assert_eq!(x_and_y.eval(&ctx), false);
    assert_eq!(x_and_not_y.eval(&ctx), true);
    assert_eq!(x_and_y_and_z.eval(&ctx), false);
}

#[test]
fn atom_test_parse() {
    assert_eq!(atom::parse("0").unwrap(), ("".to_string(), Atom::Const(false)));
    assert_eq!(atom::parse("false").unwrap(), ("".to_string(), Atom::Const(false)));
    assert_eq!(atom::parse("1").unwrap(), ("".to_string(), Atom::Const(true)));
    assert_eq!(atom::parse("true").unwrap(), ("".to_string(), Atom::Const(true)));
    assert_eq!(
        atom::parse("x").unwrap(),
        ("".to_string(), Atom::Variable("x".to_string()))
    );
    assert_eq!(
        atom::parse("y").unwrap(),
        ("".to_string(), Atom::Variable("y".to_string()))
    );
}

#[test]
fn atom_test_eval() {
    let mut ctx = Assignment::new();
    ctx.insert("x".to_string(), true);
    ctx.insert("y".to_string(), false);
    let f = Atom::Const(false);
    assert_eq!(f.eval(&ctx), false);
    let t = Atom::Const(true);
    assert_eq!(t.eval(&ctx), true);
    let x = Atom::Variable("x".to_string());
    assert_eq!(x.eval(&ctx), true);
    let y = Atom::Variable("y".to_string());
    assert_eq!(y.eval(&ctx), false);
}

#[test]
fn atom_test_variables() {
    let result = atom::parse("x").unwrap().1.variables();
    assert!(result.contains(&"x".to_string()));
    assert!(!result.contains(&"y".to_string()));
    let result = atom::parse("1").unwrap().1.variables();
    assert!(!result.contains(&"x".to_string()));
    assert!(!result.contains(&"y".to_string()));
}

#[test]
fn expression_test_parse() {
    assert_eq!(
        expression::parse("!(a&b)|c"),
        Some((
            "".to_string(),
            Expression::Or(Or(
                OrOperand::Not(Not(NotOperand::InBrackets(InBrackets(Box::new(
                    Expression::And(And(
                        AndOperand::Atom(Atom::Variable("a".to_string())),
                        AndOperand::Atom(Atom::Variable("b".to_string()))
                    ))
                ))))),
                OrOperand::Atom(Atom::Variable("c".to_string()))
            ))
        ))
    );
}

#[test]
fn expression_test_eval() {
    let mut ctx = Assignment::new();
    ctx.insert("a".to_string(), true);
    ctx.insert("b".to_string(), false);
    ctx.insert("c".to_string(), true);
    assert_eq!(expression::parse("!(a&b)|c").unwrap().1.eval(&ctx), true);
}

#[test]
fn expression_test_variables() {
    let result = expression::parse("!(a&b)|c").unwrap().1.variables();
    assert!(result.contains(&"a".to_string()));
    assert!(result.contains(&"b".to_string()));
    assert!(result.contains(&"c".to_string()));
    assert!(!result.contains(&"d".to_string()));
}

#[test]
fn in_brackets_test_parse() {
    assert_eq!(
        in_brackets::parse("(a&b)"),
        Some((
            "".to_string(),
            InBrackets(Box::new(Expression::And(And(
                AndOperand::Atom(Atom::Variable("a".to_string())),
                AndOperand::Atom(Atom::Variable("b".to_string()))
            ))))
        ))
    );
}

#[test]
fn in_brackets_test_eval() {
    let mut ctx = Assignment::new();
    ctx.insert("a".to_string(), true);
    ctx.insert("b".to_string(), false);
    assert_eq!(in_brackets::parse("(a&b)").unwrap().1.eval(&ctx), false);
}

#[test]
fn not_test_parse() {
    assert_eq!(
        not::parse("!x").unwrap(),
        (
            "".to_string(),
            Not(NotOperand::Atom(Atom::Variable("x".to_string())))
        )
    );
    assert_eq!(
        not::parse("!!x").unwrap(),
        (
            "".to_string(),
            Not(NotOperand::Not(Box::new(Not(NotOperand::Atom(
                Atom::Variable("x".to_string())
            )))))
        )
    );
}

#[test]
fn not_test_eval() {
    let mut ctx = Assignment::new();
    ctx.insert("x".to_string(), true);
    let not_x = not::parse("!x").unwrap().1;
    let not_not_x = not::parse("!!x").unwrap().1;
    assert_eq!(not_x.eval(&ctx), false);
    assert_eq!(not_not_x.eval(&ctx), true);
    ctx.insert("x".to_string(), false);
    assert_eq!(not_x.eval(&ctx), true);
    assert_eq!(not_not_x.eval(&ctx), false);
}

#[test]
fn not_test_variables() {
    let result = not::parse("!x").unwrap().1.variables();
    assert!(result.contains(&"x".to_string()));
    assert!(!result.contains(&"y".to_string()));
}

#[test]
fn or_test_parse() {
    assert_eq!(
        or::parse("x|y").unwrap(),
        (
            "".to_string(),
            Or(
                OrOperand::Atom(Atom::Variable("x".to_string())),
                OrOperand::Atom(Atom::Variable("y".to_string()))
            )
        )
    );
    assert_eq!(
        or::parse("x|y&z").unwrap(),
        (
            "".to_string(),
            Or(
                OrOperand::Atom(Atom::Variable("x".to_string())),
                OrOperand::And(And(
                    AndOperand::Atom(Atom::Variable("y".to_string())),
                    AndOperand::Atom(Atom::Variable("z".to_string()))
                ))
            )
        )
    );
}

#[test]
fn or_test_eval() {
    let mut ctx = Assignment::new();
    ctx.insert("x".to_string(), true);
    ctx.insert("y".to_string(), false);
    ctx.insert("z".to_string(), true);
    let x_or_y = or::parse("x|y").unwrap().1;
    let x_or_y_and_z = or::parse("x|y&z").unwrap().1;
    assert_eq!(x_or_y.eval(&ctx), true);
    assert_eq!(x_or_y_and_z.eval(&ctx), true);
    ctx.insert("x".to_string(), false);
    assert_eq!(x_or_y_and_z.eval(&ctx), false);
}
