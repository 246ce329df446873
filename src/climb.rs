use vstd::prelude::*;

use crate::ast::{Expr, Literal, Op};

verus! {

/// The sequence `s` read back to front.
pub open spec fn reversed<A>(s: Seq<A>) -> Seq<A> {
    Seq::new(s.len(), |i: int| s[s.len() - 1 - i])
}

/// The position of the operator that binds loosest in `rest`; among equally
/// loose operators, the last one.
pub open spec fn loosest(rest: Seq<(Op, Expr)>) -> int
    decreases rest.len(),
{
    if rest.len() <= 1 {
        0
    } else {
        let k = loosest(rest.drop_last());
        if rest.last().0.rank() <= rest[k].0.rank() {
            rest.len() - 1
        } else {
            k
        }
    }
}

/// The tree that standard precedence gives to the operand `first` followed
/// by the operator/operand pairs of `rest`: tighter operators group first,
/// and operators of equal priority group from the left.
pub open spec fn prec_tree(first: Expr, rest: Seq<(Op, Expr)>) -> Expr
    decreases rest.len(),
    via prec_tree_decreases
{
    if rest.len() == 0 {
        first
    } else {
        let k = loosest(rest);
        Expr::BinOp(
            rest[k].0,
            Box::new(prec_tree(first, rest.take(k))),
            Box::new(prec_tree(rest[k].1, rest.skip(k + 1))),
        )
    }
}

#[via_fn]
proof fn prec_tree_decreases(first: Expr, rest: Seq<(Op, Expr)>) {
    if rest.len() > 0 {
        lemma_loosest_range(rest);
    }
}

/// An expression read left to right down to its operands (literals and
/// parenthesised groups): the first operand and the operator/operand pairs
/// that follow, each group put in precedence form.
pub open spec fn flat(e: Expr) -> (Expr, Seq<(Op, Expr)>)
    decreases e,
{
    match e {
        Expr::Lit(l) => (Expr::Lit(l), Seq::empty()),
        Expr::Par(x) => {
            let (f, s) = flat(*x);
            (Expr::Par(Box::new(prec_tree(f, s))), Seq::empty())
        },
        Expr::BinOp(op, l, r) => (
            flat(*l).0,
            flat(*l).1 + seq![(op, flat(*r).0)] + flat(*r).1,
        ),
    }
}

/// The precedence-correct form of an expression: its operands and
/// operators as written, grouped by standard precedence.
pub open spec fn climbed(e: Expr) -> Expr {
    prec_tree(flat(e).0, flat(e).1)
}

/// The length of the longest prefix of `rest` whose operators have at least
/// priority `min`.
pub open spec fn run_len(rest: Seq<(Op, Expr)>, min: u8) -> nat
    decreases rest.len(),
{
    if rest.len() == 0 || rest[0].0.rank() < min {
        0
    } else {
        1 + run_len(rest.skip(1), min)
    }
}

/// Whether every operator of `rest` has the tighter priority.
pub open spec fn all_tight(rest: Seq<(Op, Expr)>) -> bool {
    forall|i: int| 0 <= i < rest.len() ==> #[trigger] rest[i].0.rank() == 1
}

proof fn lemma_loosest_range(rest: Seq<(Op, Expr)>)
    requires
        rest.len() > 0,
    ensures
        0 <= loosest(rest) < rest.len(),
    decreases rest.len(),
{
    if rest.len() > 1 {
        lemma_loosest_range(rest.drop_last());
    }
}

/// Where every operator binds at least as tightly as the last, the last
/// one is the loosest.
proof fn lemma_loosest_last(rest: Seq<(Op, Expr)>)
    requires
        rest.len() > 0,
        forall|i: int| 0 <= i < rest.len() ==> rest.last().0.rank() <= #[trigger] rest[i].0.rank(),
    ensures
        loosest(rest) == rest.len() - 1,
{
    if rest.len() > 1 {
        lemma_loosest_range(rest.drop_last());
    }
}

/// A loosest-tier operator followed only by tighter ones is the loosest.
proof fn lemma_loosest_at(rest: Seq<(Op, Expr)>, c: int)
    requires
        0 <= c < rest.len(),
        rest[c].0.rank() == 0,
        forall|i: int| c < i < rest.len() ==> #[trigger] rest[i].0.rank() > 0,
    ensures
        loosest(rest) == c,
    decreases rest.len(),
{
    if rest.len() > 1 && c < rest.len() - 1 {
        lemma_loosest_at(rest.drop_last(), c);
    }
}

proof fn lemma_run_len_props(rest: Seq<(Op, Expr)>, min: u8)
    ensures
        run_len(rest, min) <= rest.len(),
        forall|i: int| 0 <= i < run_len(rest, min) ==> #[trigger] rest[i].0.rank() >= min,
        run_len(rest, min) < rest.len() ==> rest[run_len(rest, min) as int].0.rank() < min,
    decreases rest.len(),
{
    if rest.len() > 0 && rest[0].0.rank() >= min {
        lemma_run_len_props(rest.skip(1), min);
        assert forall|i: int| 0 <= i < run_len(rest, min) implies #[trigger] rest[i].0.rank() >= min by {
            if i > 0 {
                assert(rest[i] == rest.skip(1)[i - 1]);
            }
        }
    }
}

proof fn lemma_run_len_char(rest: Seq<(Op, Expr)>, min: u8, c: int)
    requires
        0 <= c <= rest.len(),
        forall|i: int| 0 <= i < c ==> #[trigger] rest[i].0.rank() >= min,
        c == rest.len() || rest[c].0.rank() < min,
    ensures
        run_len(rest, min) == c,
    decreases c,
{
    if c > 0 {
        let t = rest.skip(1);
        assert forall|i: int| 0 <= i < c - 1 implies #[trigger] t[i].0.rank() >= min by {
            assert(t[i] == rest[i + 1]);
        }
        if c < rest.len() {
            assert(t[c - 1] == rest[c]);
        }
        lemma_run_len_char(t, min, c - 1);
    }
}

proof fn lemma_reversed_take<A>(s: Seq<A>, j: int)
    requires
        0 <= j <= s.len(),
    ensures
        reversed(s.take(j)) == reversed(s).subrange(s.len() - j, s.len() as int),
{
    assert(reversed(s.take(j)) =~= reversed(s).subrange(s.len() - j, s.len() as int));
}

/// Whether the next operator of the scanner has priority at least
/// `threshold`.
fn peek_precedence(scanner: &Vec<(Op, Expr)>, threshold: u8) -> (r: bool)
    ensures
        r == (scanner@.len() > 0 && scanner@.last().0.rank() >= threshold),
{
    if scanner.len() == 0 {
        false
    } else {
        scanner[scanner.len() - 1].0.priority() >= threshold
    }
}


/// Climbs the longest run of upcoming operators that bind at least as
/// tightly as `min_precedence`, taking `lhs` as its first operand; the
/// scanner is a stack whose last element comes next.
fn climb_rec(lhs: Expr, min_precedence: u8, scanner: &mut Vec<(Op, Expr)>) -> (r: Expr)
    ensures
        ({
            let rest = reversed(old(scanner)@);
            let k = run_len(rest, min_precedence);
            &&& r == prec_tree(lhs, rest.take(k as int))
            &&& final(scanner)@ == old(scanner)@.take(old(scanner)@.len() - k)
        }),
    decreases scanner@.len(),
{
    let ghost s0 = scanner@;
    let ghost n = s0.len() as int;
    let ghost rest = reversed(s0);
    let ghost lhs0 = lhs;
    let ghost mut c: int = 0;
    let mut lhs = lhs;
    while peek_precedence(scanner, min_precedence)
        invariant
            s0 == old(scanner)@,
            n == s0.len(),
            rest == reversed(s0),
            0 <= c <= n,
            scanner@ == s0.take(n - c),
            lhs == prec_tree(lhs0, rest.take(c)),
            forall|i: int| 0 <= i < c ==> #[trigger] rest[i].0.rank() >= min_precedence,
            all_tight(rest.take(c)) || c == n || rest[c].0.rank() == 0,
        decreases scanner@.len(),
    {
        let (op, atom) = scanner.pop().unwrap();
        let ghost a = atom;
        let ghost c1 = c + 1;
        let ghost mut d: int = c + 1;
        assert(rest[c] == (op, atom));
        let mut rhs = atom;
        while peek_precedence(scanner, op.priority() + 1)
            invariant
                s0 == old(scanner)@,
                n == s0.len(),
                rest == reversed(s0),
                0 <= c < n,
                c1 == c + 1,
                c1 <= d <= n,
                rest[c] == (op, a),
                op.rank() >= min_precedence,
                scanner@ == s0.take(n - d),
                rhs == prec_tree(a, rest.subrange(c1, d)),
                forall|i: int| c1 <= i < d ==> #[trigger] rest[i].0.rank() == 1,
                d > c1 ==> op.rank() == 0 && (d == n || rest[d].0.rank() == 0),
            decreases scanner@.len(),
        {
            proof {
                assert(scanner@.last() == rest[d]);
                assert(rest.subrange(c1, d) =~= Seq::<(Op, Expr)>::empty());
                lemma_reversed_take(s0, n - d);
            }
            let ghost before = scanner@;
            rhs = climb_rec(rhs, min_precedence + 1, scanner);
            proof {
                let rest2 = reversed(before);
                assert(rest2 =~= rest.subrange(d, n));
                let m = run_len(rest2, 1) as int;
                lemma_run_len_props(rest2, 1);
                assert(rest2[0] == rest[d]);
                assert(m >= 1);
                assert(rest2.take(m) =~= rest.subrange(c1, d + m));
                assert(scanner@ =~= s0.take(n - (d + m)));
                assert forall|i: int| c1 <= i < d + m implies #[trigger] rest[i].0.rank() == 1 by {
                    assert(rest[i] == rest2[i - d]);
                }
                if d + m < n {
                    assert(rest[d + m] == rest2[m]);
                }
                d = d + m;
            }
        }
        proof {
            let t = rest.take(d);
            if op.rank() == 0 {
                assert forall|i: int| c < i < t.len() implies #[trigger] t[i].0.rank() > 0 by {
                    assert(t[i] == rest[i]);
                }
                lemma_loosest_at(t, c);
                if d < n {
                    assert(scanner@.last() == rest[d]);
                }
            } else {
                assert(all_tight(rest.take(c)));
                assert(all_tight(t)) by {
                    assert forall|i: int| 0 <= i < t.len() implies #[trigger] t[i].0.rank() == 1 by {
                        if i < c {
                            assert(t[i] == rest.take(c)[i]);
                        }
                    }
                }
                lemma_loosest_last(t);
            }
            assert(t.take(c) =~= rest.take(c));
            assert(t.skip(c + 1) =~= rest.subrange(c1, d));
        }
        lhs = Expr::bin_op(op, lhs, rhs);
        proof {
            c = d;
        }
    }
    proof {
        lemma_run_len_char(rest, min_precedence, c);
    }
    lhs
}


/// Flattens an expression into its first operand and a stack of the
/// operator/operand pairs that follow, the last pair at the bottom and the
/// next one on top; groups are climbed on the way.
fn to_vec(e: Expr) -> (r: (Expr, Vec<(Op, Expr)>))
    ensures
        r.0 == flat(e).0,
        reversed(r.1@) == flat(e).1,
    decreases e, 0int,
{
    match e {
        Expr::Lit(l) => {
            let v: Vec<(Op, Expr)> = Vec::new();
            proof {
                assert(reversed(v@) =~= flat(e).1);
            }
            (Expr::Lit(l), v)
        },
        Expr::Par(x) => {
            let v: Vec<(Op, Expr)> = Vec::new();
            proof {
                assert(reversed(v@) =~= flat(e).1);
            }
            (Expr::Par(Box::new(climb(*x))), v)
        },
        Expr::BinOp(op, l, r) => {
            let (fr, mut v) = to_vec(*r);
            let ghost right = v@;
            v.push((op, fr));
            let (fl, mut vl) = to_vec(*l);
            let ghost left = vl@;
            v.append(&mut vl);
            proof {
                assert(reversed(v@) =~= reversed(left) + seq![(op, fr)] + reversed(right));
            }
            (fl, v)
        },
    }
}

/// Rewrites an expression into the tree that standard precedence gives to
/// its operands and operators as written: `*` and `/` group before `+`, `-`, `&&` and
/// `||`, operators of one priority group from the left, and each
/// parenthesised group is climbed on its own and kept whole.
pub fn climb(e: Expr) -> (r: Expr)
    ensures
        r == climbed(e),
    decreases e, 1int,
{
    let (lhs, mut scanner) = to_vec(e);
    let ghost rest = reversed(scanner@);
    let r = climb_rec(lhs, 0, &mut scanner);
    proof {
        lemma_run_len_char(rest, 0, rest.len() as int);
        assert(rest.take(rest.len() as int) =~= rest);
    }
    r
}


/// An expression read left to right down to its operands (the parts that
/// are not binary operations): the first operand and the operator/operand
/// pairs that follow.
pub open spec fn inorder(t: Expr) -> (Expr, Seq<(Op, Expr)>)
    decreases t,
{
    match t {
        Expr::BinOp(op, l, r) => (
            inorder(*l).0,
            inorder(*l).1 + seq![(op, inorder(*r).0)] + inorder(*r).1,
        ),
        _ => (t, Seq::empty()),
    }
}

/// Whether no operand of `first` and `rest` is a binary operation.
pub open spec fn operands_atomic(first: Expr, rest: Seq<(Op, Expr)>) -> bool {
    &&& !(first is BinOp)
    &&& forall|i: int| 0 <= i < rest.len() ==> !(#[trigger] rest[i].1 is BinOp)
}

/// A single literal is its own precedence form.
pub proof fn lemma_climb_literal(x: Literal)
    ensures
        climbed(Expr::Lit(x)) == Expr::Lit(x),
{
}

/// A parenthesised group is climbed on its own and kept whole, so it
/// evaluates as its own contents climbed, whatever surrounds it.
pub proof fn lemma_climb_par(e: Expr)
    ensures
        climbed(Expr::Par(Box::new(e))) == Expr::Par(Box::new(climbed(e))),
        climbed(Expr::Par(Box::new(e))).value() == climbed(e).value(),
{
}

/// The operands of a flattened expression are literals or groups.
pub proof fn lemma_flat_atomic(e: Expr)
    ensures
        operands_atomic(flat(e).0, flat(e).1),
    decreases e,
{
    match e {
        Expr::BinOp(op, l, r) => {
            lemma_flat_atomic(*l);
            lemma_flat_atomic(*r);
            let sl = flat(*l).1;
            let s = flat(e).1;
            assert forall|i: int| 0 <= i < s.len() implies !(#[trigger] s[i].1 is BinOp) by {
                if i < sl.len() {
                    assert(s[i] == sl[i]);
                } else if i > sl.len() {
                    assert(s[i] == flat(*r).1[i - sl.len() - 1]);
                }
            }
        },
        _ => {},
    }
}

/// The precedence tree keeps its operands and operators in the order given.
pub proof fn lemma_prec_tree_inorder(first: Expr, rest: Seq<(Op, Expr)>)
    requires
        operands_atomic(first, rest),
    ensures
        inorder(prec_tree(first, rest)) == (first, rest),
    decreases rest.len(),
{
    if rest.len() > 0 {
        let k = loosest(rest);
        lemma_loosest_range(rest);
        let left = rest.take(k);
        let right = rest.skip(k + 1);
        assert forall|i: int| 0 <= i < left.len() implies !(#[trigger] left[i].1 is BinOp) by {
            assert(left[i] == rest[i]);
        }
        assert forall|i: int| 0 <= i < right.len() implies !(#[trigger] right[i].1 is BinOp) by {
            assert(right[i] == rest[i + k + 1]);
        }
        lemma_prec_tree_inorder(first, left);
        lemma_prec_tree_inorder(rest[k].1, right);
        assert(left + seq![(rest[k].0, rest[k].1)] + right =~= rest);
    }
}

/// Climbing only regroups: read left to right, the climbed tree has the
/// expression's operands and operators in their written order, each
/// parenthesised group standing as one operand.
pub proof fn lemma_climb_keeps_order(e: Expr)
    ensures
        inorder(climbed(e)) == flat(e),
{
    lemma_flat_atomic(e);
    lemma_prec_tree_inorder(flat(e).0, flat(e).1);
}


/// An operand as flattening leaves it: a group is climbed.
pub open spec fn operand_climbed(x: Expr) -> Expr {
    match x {
        Expr::Par(y) => Expr::Par(Box::new(climbed(*y))),
        _ => x,
    }
}

/// Whether flattening again leaves every operand unchanged.
pub open spec fn operands_settled(first: Expr, rest: Seq<(Op, Expr)>) -> bool {
    &&& operand_climbed(first) == first
    &&& forall|i: int| 0 <= i < rest.len() ==> operand_climbed(#[trigger] rest[i].1) == rest[i].1
}

/// Flattening reads an expression left to right, climbing each group.
proof fn lemma_flat_inorder(t: Expr)
    ensures
        flat(t).0 == operand_climbed(inorder(t).0),
        flat(t).1 == inorder(t).1.map_values(|p: (Op, Expr)| (p.0, operand_climbed(p.1))),
    decreases t,
{
    match t {
        Expr::BinOp(op, l, r) => {
            lemma_flat_inorder(*l);
            lemma_flat_inorder(*r);
            let f = |p: (Op, Expr)| (p.0, operand_climbed(p.1));
            assert(flat(t).1 =~= inorder(t).1.map_values(f));
        },
        _ => {},
    }
}

/// The operands of a flattened expression are settled: climbing them again
/// changes nothing.
proof fn lemma_flat_settled(e: Expr)
    ensures
        operands_settled(flat(e).0, flat(e).1),
    decreases e, 0int,
{
    match e {
        Expr::Lit(_) => {},
        Expr::Par(y) => {
            lemma_climb_idempotent(*y);
        },
        Expr::BinOp(op, l, r) => {
            lemma_flat_settled(*l);
            lemma_flat_settled(*r);
            let sl = flat(*l).1;
            let s = flat(e).1;
            assert forall|i: int| 0 <= i < s.len() implies operand_climbed(#[trigger] s[i].1)
                == s[i].1 by {
                if i < sl.len() {
                    assert(s[i] == sl[i]);
                } else if i > sl.len() {
                    assert(s[i] == flat(*r).1[i - sl.len() - 1]);
                }
            }
        },
    }
}

/// Climbing is idempotent: a tree already in precedence form is a fixed
/// point.
pub proof fn lemma_climb_idempotent(e: Expr)
    ensures
        climbed(climbed(e)) == climbed(e),
    decreases e, 1int,
{
    let t = climbed(e);
    lemma_climb_keeps_order(e);
    lemma_flat_inorder(t);
    lemma_flat_settled(e);
    let s = flat(e).1;
    assert(flat(t).1 =~= s);
}


/// `op` applied to two evaluation outcomes; `None` where either failed.
pub open spec fn apply_values(op: Op, a: Option<Literal>, b: Option<Literal>) -> Option<Literal> {
    match (a, b) {
        (Some(x), Some(y)) => op.apply(x, y),
        _ => None,
    }
}

/// The position of the last loosest-tier operator of `rest`, or -1 where
/// every operator is of the tighter tier.
pub open spec fn last_loose(rest: Seq<(Op, Expr)>) -> int
    decreases rest.len(),
{
    if rest.len() == 0 {
        -1
    } else if rest.last().0.rank() == 0 {
        rest.len() - 1
    } else {
        last_loose(rest.drop_last())
    }
}

/// Evaluating left to right as arithmetic is taught: the state after
/// reading `first` and `rest` is the total so far with the loose operator
/// waiting to combine it (if any), and the value of the current term. A
/// tight operator folds its operand into the term; a loose one closes the
/// term into the total and starts a new term.
pub open spec fn reading(first: Expr, rest: Seq<(Op, Expr)>) -> (
    Option<(Option<Literal>, Op)>,
    Option<Literal>,
)
    decreases rest.len(),
{
    if rest.len() == 0 {
        (None, first.value())
    } else {
        let (total, term) = reading(first, rest.drop_last());
        let (op, x) = rest.last();
        if op.rank() == 1 {
            (total, apply_values(op, term, x.value()))
        } else {
            (Some((settle(total, term), op)), x.value())
        }
    }
}

/// The total once the current term is closed.
pub open spec fn settle(total: Option<(Option<Literal>, Op)>, term: Option<Literal>) -> Option<
    Literal,
> {
    match total {
        None => term,
        Some((sum, op)) => apply_values(op, sum, term),
    }
}

/// The value of `first` followed by `rest` under standard precedence,
/// evaluated left to right: `*` and `/` runs first, then `+`, `-`, `&&`
/// and `||`, each from the left.
pub open spec fn standard_value(first: Expr, rest: Seq<(Op, Expr)>) -> Option<Literal> {
    settle(reading(first, rest).0, reading(first, rest).1)
}

proof fn lemma_last_loose(rest: Seq<(Op, Expr)>)
    ensures
        -1 <= last_loose(rest) < rest.len(),
        last_loose(rest) >= 0 ==> rest[last_loose(rest)].0.rank() == 0,
        forall|i: int| last_loose(rest) < i < rest.len() ==> #[trigger] rest[i].0.rank() == 1,
    decreases rest.len(),
{
    if rest.len() > 0 && rest.last().0.rank() != 0 {
        lemma_last_loose(rest.drop_last());
        assert forall|i: int| last_loose(rest) < i < rest.len() implies #[trigger] rest[i].0.rank()
            == 1 by {
            if i < rest.len() - 1 {
                assert(rest[i] == rest.drop_last()[i]);
            }
        }
    }
}

/// The left-to-right reading agrees with the precedence tree, state by
/// state.
proof fn lemma_reading(first: Expr, rest: Seq<(Op, Expr)>)
    ensures
        last_loose(rest) < 0 ==> reading(first, rest) == (
            None::<(Option<Literal>, Op)>,
            prec_tree(first, rest).value(),
        ),
        last_loose(rest) >= 0 ==> reading(first, rest) == (
            Some(
                (
                    prec_tree(first, rest.take(last_loose(rest))).value(),
                    rest[last_loose(rest)].0,
                ),
            ),
            prec_tree(rest[last_loose(rest)].1, rest.skip(last_loose(rest) + 1)).value(),
        ),
        standard_value(first, rest) == prec_tree(first, rest).value(),
    decreases rest.len(),
{
    lemma_last_loose(rest);
    if rest.len() > 0 {
        let init = rest.drop_last();
        let n = rest.len() - 1;
        let (op, x) = rest.last();
        lemma_reading(first, init);
        lemma_last_loose(init);
        assert(rest.take(n) =~= init);
        if op.rank() == 0 {
            lemma_loosest_last(rest);
            assert(rest.skip(n + 1) =~= Seq::<(Op, Expr)>::empty());
            assert(last_loose(rest) == n);
            assert(prec_tree(x, rest.skip(n + 1)) == x);
            assert(reading(first, rest) == (
                Some((settle(reading(first, init).0, reading(first, init).1), op)),
                x.value(),
            ));
        } else {
            let k = last_loose(rest);
            assert(k == last_loose(init));
            if k < 0 {
                lemma_loosest_last(rest);
                assert(rest.skip(n + 1) =~= Seq::<(Op, Expr)>::empty());
                assert(prec_tree(x, rest.skip(n + 1)) == x);
                assert(prec_tree(first, rest) == Expr::BinOp(
                    op,
                    Box::new(prec_tree(first, init)),
                    Box::new(x),
                ));
            } else {
                assert(init[k] == rest[k]);
                let tail = rest.skip(k + 1);
                assert(init.take(k) =~= rest.take(k));
                assert(tail.drop_last() =~= init.skip(k + 1));
                assert forall|i: int| 0 <= i < tail.len() implies tail.last().0.rank()
                    <= #[trigger] tail[i].0.rank() by {
                    assert(tail[i] == rest[i + k + 1]);
                }
                lemma_loosest_last(tail);
                assert(tail.skip(tail.len() as int) =~= Seq::<(Op, Expr)>::empty());
                assert(tail.take(tail.len() - 1) =~= tail.drop_last());
                assert(tail[tail.len() - 1] == (op, x));
                assert(prec_tree(x, tail.skip(tail.len() as int)) == x);
                assert(prec_tree(rest[k].1, tail) == Expr::BinOp(
                    op,
                    Box::new(prec_tree(rest[k].1, init.skip(k + 1))),
                    Box::new(x),
                ));
            }
        }
        let k = last_loose(rest);
        if k >= 0 {
            assert forall|i: int| k < i < rest.len() implies #[trigger] rest[i].0.rank() > 0 by {}
            lemma_loosest_at(rest, k);
        }
    }
}

/// Climbing evaluates as standard precedence does: the climbed tree's value
/// is the left-to-right two-tier evaluation of the operands and operators
/// as written.
pub proof fn lemma_climb_standard_value(e: Expr)
    ensures
        climbed(e).value() == standard_value(flat(e).0, flat(e).1),
{
    lemma_reading(flat(e).0, flat(e).1);
}


/// Parenthesised groups stay whole: read left to right, the climbed tree
/// has the operands and operators of `e` in their written order, each
/// group `Par(g)` standing intact as the one operand `Par(climbed(g))`, so
/// no operator moves into or out of a group.
pub proof fn lemma_climb_groups_intact(e: Expr)
    ensures
        inorder(climbed(e)).0 == operand_climbed(inorder(e).0),
        inorder(climbed(e)).1 == inorder(e).1.map_values(
            |p: (Op, Expr)| (p.0, operand_climbed(p.1)),
        ),
{
    lemma_climb_keeps_order(e);
    lemma_flat_inorder(e);
}

} // verus!
