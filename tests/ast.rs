use expr_climb::ast::{Expr, Literal, Op};

fn lit(i: i32) -> Expr {
    Expr::Lit(Literal::Int(i))
}

#[test]
fn op_eval_arithmetic() {
    assert_eq!(Op::Add.eval(Literal::Int(2), Literal::Int(3)), Literal::Int(5));
    assert_eq!(Op::Sub.eval(Literal::Int(2), Literal::Int(3)), Literal::Int(-1));
    assert_eq!(Op::Mul.eval(Literal::Int(-2), Literal::Int(3)), Literal::Int(-6));
    assert_eq!(Op::Div.eval(Literal::Int(7), Literal::Int(2)), Literal::Int(3));
    assert_eq!(Op::Div.eval(Literal::Int(-7), Literal::Int(2)), Literal::Int(-3));
}

#[test]
fn op_eval_boolean() {
    assert_eq!(Op::And.eval(Literal::Bool(true), Literal::Bool(false)), Literal::Bool(false));
    assert_eq!(Op::And.eval(Literal::Bool(true), Literal::Bool(true)), Literal::Bool(true));
    assert_eq!(Op::Or.eval(Literal::Bool(false), Literal::Bool(true)), Literal::Bool(true));
    assert_eq!(Op::Or.eval(Literal::Bool(false), Literal::Bool(false)), Literal::Bool(false));
}

#[test]
fn op_priorities() {
    assert_eq!(Op::Add.priority(), 0);
    assert_eq!(Op::Sub.priority(), 0);
    assert_eq!(Op::Mul.priority(), 1);
    assert_eq!(Op::Div.priority(), 1);
    assert_eq!(Op::And.priority(), 0);
    assert_eq!(Op::Or.priority(), 0);
}

#[test]
fn literal_getters() {
    assert_eq!(Literal::Int(-4).get_int(), -4);
    assert!(Literal::Bool(true).get_bool());
    assert!(!Literal::Bool(false).get_bool());
}

#[test]
fn eval_tree() {
    // (2 - 4) - 5 as a tree
    let e = Expr::bin_op(Op::Sub, Expr::Par(Box::new(Expr::bin_op(Op::Sub, lit(2), lit(4)))), lit(5));
    assert_eq!(e.eval(), Literal::Int(-7));
    assert_eq!(lit(9).eval(), Literal::Int(9));
}

#[test]
fn bin_op_builds_node() {
    let e = Expr::bin_op(Op::Add, lit(1), lit(2));
    assert_eq!(e, Expr::BinOp(Op::Add, Box::new(lit(1)), Box::new(lit(2))));
}

#[test]
fn eval_extreme_values() {
    assert_eq!(Op::Add.eval(Literal::Int(i32::MAX - 1), Literal::Int(1)), Literal::Int(i32::MAX));
    assert_eq!(Op::Div.eval(Literal::Int(i32::MIN), Literal::Int(1)), Literal::Int(i32::MIN));
}

#[test]
fn try_eval_rejects_bad_operands() {
    assert_eq!(Op::Add.try_eval(Literal::Bool(true), Literal::Int(1)), None);
    assert_eq!(Op::And.try_eval(Literal::Int(1), Literal::Int(1)), None);
    assert_eq!(Op::Div.try_eval(Literal::Int(1), Literal::Int(0)), None);
    assert_eq!(Op::Div.try_eval(Literal::Int(i32::MIN), Literal::Int(-1)), None);
    assert_eq!(Op::Mul.try_eval(Literal::Int(i32::MAX), Literal::Int(2)), None);
    assert_eq!(Op::Sub.try_eval(Literal::Int(i32::MIN), Literal::Int(1)), None);
    assert_eq!(Op::Or.try_eval(Literal::Bool(false), Literal::Bool(true)), Some(Literal::Bool(true)));
    assert_eq!(Op::Div.try_eval(Literal::Int(8), Literal::Int(3)), Some(Literal::Int(2)));
}

#[test]
fn try_eval_tree() {
    let bad = Expr::bin_op(Op::Add, lit(1), Expr::Lit(Literal::Bool(true)));
    assert_eq!(bad.try_eval(), None);
    let good = Expr::bin_op(Op::Mul, Expr::Par(Box::new(Expr::bin_op(Op::Add, lit(1), lit(2)))), lit(3));
    assert_eq!(good.try_eval(), Some(Literal::Int(9)));
    assert_eq!(good.eval(), Literal::Int(9));
}

#[test]
fn conversions() {
    assert_eq!(Literal::from(3), Literal::Int(3));
    assert_eq!(Expr::from(-3), lit(-3));
    assert_eq!(Expr::from(Literal::Bool(true)), Expr::Lit(Literal::Bool(true)));
}
