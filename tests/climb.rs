use expr_climb::ast::{Expr, Literal, Op};
use expr_climb::climb::climb;
use expr_climb::parse::{parse_climbed, Token};

fn num(i: i32) -> Token {
    Token::Lit(Literal::Int(i))
}

fn boolean(b: bool) -> Token {
    Token::Lit(Literal::Bool(b))
}

fn op(o: Op) -> Token {
    Token::Op(o)
}

fn group(ts: Vec<Token>) -> Token {
    Token::Group(ts)
}

fn lit(i: i32) -> Expr {
    Expr::Lit(Literal::Int(i))
}

/// Tokens for operands separated by operators, all integers.
fn chain(first: i32, rest: &[(Op, i32)]) -> Vec<Token> {
    let mut ts = vec![num(first)];
    for (o, i) in rest {
        ts.push(op(*o));
        ts.push(num(*i));
    }
    ts
}

#[test]
fn climb_test1() {
    // 2 - 3 - 4 - 5
    let ts = chain(2, &[(Op::Sub, 3), (Op::Sub, 4), (Op::Sub, 5)]);
    let e: Expr = Expr::parse_all(&ts).unwrap();
    println!("e {:?}", e);
    let e = climb(e);
    println!("e {:?}", e);
    println!("evaluation {:?}", e.eval());
    assert_eq!(e.eval(), Literal::Int(2 - 3 - 4 - 5));
}

#[test]
fn climb_test2() {
    // 2 - 3 * 4 - 5
    let ts = chain(2, &[(Op::Sub, 3), (Op::Mul, 4), (Op::Sub, 5)]);
    let e: Expr = Expr::parse_all(&ts).unwrap();
    println!("e {:?}", e);
    let e = climb(e);
    println!("e {:?}", e);
    println!("evaluation {:?}", e.eval());
    assert_eq!(e.eval(), Literal::Int(2 - 3 * 4 - 5));
}

#[test]
fn climb_test3() {
    // 4 - 5 - 2 * 8 * 3 - 1 - 2 * 5
    let ts = chain(
        4,
        &[
            (Op::Sub, 5),
            (Op::Sub, 2),
            (Op::Mul, 8),
            (Op::Mul, 3),
            (Op::Sub, 1),
            (Op::Sub, 2),
            (Op::Mul, 5),
        ],
    );
    let e: Expr = Expr::parse_all(&ts).unwrap();
    println!("e {:?}", e);
    let e = climb(e);
    println!("e {:?}", e);
    println!("evaluation {:?}", e.eval());
    assert_eq!(e.eval(), Literal::Int(4 - 5 - 2 * 8 * 3 - 1 - 2 * 5));
}

#[test]
fn climb_test4() {
    // 8 - 7 - 6 * 5 - 4 * 3
    let ts = chain(8, &[(Op::Sub, 7), (Op::Sub, 6), (Op::Mul, 5), (Op::Sub, 4), (Op::Mul, 3)]);
    let e: Expr = Expr::parse_all(&ts).unwrap();
    println!("e {:?}", e);
    let e = climb(e);
    println!("e {:?}", e);
    println!("evaluation {:?}", e.eval());
    assert_eq!(e.eval(), Literal::Int(8 - 7 - 6 * 5 - 4 * 3));
}

#[test]
fn climb_sub_chain_groups_left() {
    // 2 - 4 - 5 evaluates to 3 as parsed and to -7 once climbed
    let ts = chain(2, &[(Op::Sub, 4), (Op::Sub, 5)]);
    let e = Expr::parse_all(&ts).unwrap();
    assert_eq!(e.eval(), Literal::Int(3));
    let c = climb(e);
    assert_eq!(c.eval(), Literal::Int(-7));
    let expected = Expr::bin_op(Op::Sub, Expr::bin_op(Op::Sub, lit(2), lit(4)), lit(5));
    assert_eq!(c, expected);
}

#[test]
fn climb_mul_before_sub() {
    // 2 * 4 - 5 = 3
    let ts = chain(2, &[(Op::Mul, 4), (Op::Sub, 5)]);
    assert_eq!(climb(Expr::parse_all(&ts).unwrap()).eval(), Literal::Int(3));
}

#[test]
fn climb_par_mul_unchanged_value() {
    // (2 * 4) - 5 = 3, climbed or not
    let ts = vec![group(chain(2, &[(Op::Mul, 4)])), op(Op::Sub), num(5)];
    assert_eq!(Expr::parse_all(&ts).unwrap().eval(), Literal::Int(3));
    assert_eq!(climb(Expr::parse_all(&ts).unwrap()).eval(), Literal::Int(3));
}

#[test]
fn climb_div_left_assoc() {
    // 8 / 2 / 3 = (8 / 2) / 3 = 1
    let ts = chain(8, &[(Op::Div, 2), (Op::Div, 3)]);
    assert_eq!(climb(Expr::parse_all(&ts).unwrap()).eval(), Literal::Int(1));
}

#[test]
fn climb_bool_left_assoc() {
    // true && false || false = false
    let ts = vec![boolean(true), op(Op::And), boolean(false), op(Op::Or), boolean(false)];
    let c = climb(Expr::parse_all(&ts).unwrap());
    assert_eq!(c.eval(), Literal::Bool(false));
    let f = || Expr::Lit(Literal::Bool(false));
    let expected = Expr::bin_op(Op::Or, Expr::bin_op(Op::And, Expr::Lit(Literal::Bool(true)), f()), f());
    assert_eq!(c, expected);
}

#[test]
fn climb_single_literal() {
    assert_eq!(climb(lit(42)), lit(42));
    assert_eq!(climb(Expr::Lit(Literal::Bool(true))), Expr::Lit(Literal::Bool(true)));
}

#[test]
fn climb_par_is_opaque() {
    // 10 - (2 - 3 * 4) * 2: the group is climbed on its own and kept whole
    let inner = chain(2, &[(Op::Sub, 3), (Op::Mul, 4)]);
    let ts = vec![num(10), op(Op::Sub), group(inner), op(Op::Mul), num(2)];
    let c = parse_climbed(&ts).unwrap();
    assert_eq!(c.eval(), Literal::Int(10 - (2 - 3 * 4) * 2));
    let group_climbed = Expr::bin_op(Op::Sub, lit(2), Expr::bin_op(Op::Mul, lit(3), lit(4)));
    let expected = Expr::bin_op(
        Op::Sub,
        lit(10),
        Expr::bin_op(Op::Mul, Expr::Par(Box::new(group_climbed)), lit(2)),
    );
    assert_eq!(c, expected);
}

#[test]
fn climb_par_evaluates_as_contents() {
    // (2 - 4 - 5) climbed evaluates as 2 - 4 - 5 climbed
    let inner = chain(2, &[(Op::Sub, 4), (Op::Sub, 5)]);
    let par = climb(Expr::Par(Box::new(Expr::parse_all(&inner).unwrap())));
    let plain = climb(Expr::parse_all(&inner).unwrap());
    assert_eq!(par.eval(), plain.eval());
    assert_eq!(par, Expr::Par(Box::new(plain)));
}

#[test]
fn climb_twice_is_climb_once() {
    // 2 - 3 * 4 climbs to a tree of the same shape
    let ts = chain(2, &[(Op::Sub, 3), (Op::Mul, 4)]);
    let once = climb(Expr::parse_all(&ts).unwrap());
    let twice = climb(climb(Expr::parse_all(&ts).unwrap()));
    assert_eq!(once, twice);
}

#[test]
fn climb_mixed_tiers() {
    // 1 + 2 * 3 * 4 - 5 / 5 = 24
    let ts = chain(1, &[(Op::Add, 2), (Op::Mul, 3), (Op::Mul, 4), (Op::Sub, 5), (Op::Div, 5)]);
    assert_eq!(parse_climbed(&ts).unwrap().eval(), Literal::Int(24));
}

#[test]
fn climb_leading_tight_run() {
    // 2 * 3 * 4 - 1 = 23
    let ts = chain(2, &[(Op::Mul, 3), (Op::Mul, 4), (Op::Sub, 1)]);
    let c = parse_climbed(&ts).unwrap();
    let expected = Expr::bin_op(
        Op::Sub,
        Expr::bin_op(Op::Mul, Expr::bin_op(Op::Mul, lit(2), lit(3)), lit(4)),
        lit(1),
    );
    assert_eq!(c, expected);
    assert_eq!(c.eval(), Literal::Int(23));
}

#[test]
fn climb_already_climbed_is_fixed() {
    // (2 - 4) - 5, already in precedence form
    let ts = chain(2, &[(Op::Sub, 4), (Op::Sub, 5)]);
    let once = climb(Expr::parse_all(&ts).unwrap());
    let twice = climb(climb(Expr::parse_all(&ts).unwrap()));
    assert_eq!(once, twice);
    assert_eq!(twice.eval(), Literal::Int(-7));
}

#[test]
fn climb_left_nested_tree() {
    // (2 + 3) * 4 written without a group: regrouped as 2 + 3 * 4
    let e = Expr::bin_op(Op::Mul, Expr::bin_op(Op::Add, lit(2), lit(3)), lit(4));
    let c = climb(e);
    assert_eq!(c, Expr::bin_op(Op::Add, lit(2), Expr::bin_op(Op::Mul, lit(3), lit(4))));
    assert_eq!(c.eval(), Literal::Int(14));
}
