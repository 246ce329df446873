use vstd::prelude::*;

use crate::ast::{Expr, Literal, Op};
use crate::climb::{
    climb, climbed, flat, inorder, lemma_climb_keeps_order, lemma_climb_standard_value, prec_tree,
    standard_value,
};

verus! {

/// One token of the stream the grammar reads: a literal, an operator, a
/// parenthesised group holding its own tokens, or anything else.
#[derive(Debug, PartialEq)]
pub enum Token {
    Lit(Literal),
    Op(Op),
    Group(Vec<Token>),
    Other,
}

/// The expectation a token stream failed.
#[derive(Debug, Clone, Copy, PartialEq, Eq, Structural)]
pub enum SyntaxErrorKind {
    /// A literal or a parenthesised group was expected: the stream (or the
    /// part after an operator) ends there or holds another token.
    ExpectedOperand,
    /// An expression is complete but tokens follow it where its stream (or
    /// its group) should end.
    UnexpectedToken,
}

/// Why a token stream is not an expression, and where.
#[derive(Debug, PartialEq)]
pub struct SyntaxError {
    pub kind: SyntaxErrorKind,
    /// The failing token's position: its index in the stream, then, for a
    /// token inside a group, its index in that group, and so on inwards. An
    /// index equal to the length of its stream or group means its end.
    pub at: Vec<usize>,
}

/// What the parser gives, with its error as a kind and a position.
pub type Parsed<T> = Result<T, (SyntaxErrorKind, Seq<usize>)>;

/// Reads `ts` from position `i` by the single right-recursive rule
/// `expr := (literal | "(" expr ")") [op expr]`: the expression and the
/// position after the last token it took. After an operand, a token that is
/// not an operator (or the end) ends the expression. A group must hold
/// exactly one expression. The first unmet expectation, left to right and
/// innermost first, is the error.
pub open spec fn parse_at(ts: Seq<Token>, i: int) -> Parsed<(Expr, int)>
    decreases ts, ts.len() - i,
    via parse_at_decreases
{
    if i < 0 || i >= ts.len() {
        Err((SyntaxErrorKind::ExpectedOperand, seq![i as usize]))
    } else {
        let left = match ts[i] {
            Token::Lit(l) => Ok(Expr::Lit(l)),
            Token::Group(g) => match parse_at(g@, 0) {
                Ok((x, n)) => if n == g@.len() {
                    Ok(Expr::Par(Box::new(x)))
                } else {
                    Err((SyntaxErrorKind::UnexpectedToken, seq![i as usize, n as usize]))
                },
                Err((kind, at)) => Err((kind, seq![i as usize] + at)),
            },
            _ => Err((SyntaxErrorKind::ExpectedOperand, seq![i as usize])),
        };
        match left {
            Err(err) => Err(err),
            Ok(left) => if i + 1 < ts.len() && ts[i + 1] is Op {
                match parse_at(ts, i + 2) {
                    Ok((right, n)) => Ok(
                        (Expr::BinOp(ts[i + 1]->Op_0, Box::new(left), Box::new(right)), n),
                    ),
                    Err(err) => Err(err),
                }
            } else {
                Ok((left, i + 1))
            },
        }
    }
}

#[via_fn]
proof fn parse_at_decreases(ts: Seq<Token>, i: int) {
    if 0 <= i < ts.len() {
        assert(decreases_to!(ts => ts[i]));
        if ts[i] is Group {
            let g = ts[i]->Group_0;
            assert(decreases_to!(ts[i] => g));
            assert(decreases_to!(g => g@));
        }
    }
}

/// The expression that all of `ts` spells: tokens left after it are an
/// error.
pub open spec fn parse_all(ts: Seq<Token>) -> Parsed<Expr> {
    match parse_at(ts, 0) {
        Ok((e, n)) => if n == ts.len() {
            Ok(e)
        } else {
            Err((SyntaxErrorKind::UnexpectedToken, seq![n as usize]))
        },
        Err(err) => Err(err),
    }
}

/// A prefix parse seen as kind and position.
pub open spec fn prefix_outcome(r: Result<(Expr, usize), SyntaxError>) -> Parsed<(Expr, int)> {
    match r {
        Ok((e, n)) => Ok((e, n as int)),
        Err(err) => Err((err.kind, err.at@)),
    }
}

/// A whole parse seen as kind and position.
pub open spec fn outcome(r: Result<Expr, SyntaxError>) -> Parsed<Expr> {
    match r {
        Ok(e) => Ok(e),
        Err(err) => Err((err.kind, err.at@)),
    }
}

impl SyntaxError {
    /// An error of kind `kind` at position `i` of the stream.
    fn new(kind: SyntaxErrorKind, i: usize) -> (r: SyntaxError)
        ensures
            r.kind == kind,
            r.at@ == seq![i],
    {
        let at = vec![i];
        proof {
            assert(at@ =~= seq![i]);
        }
        SyntaxError { kind, at }
    }
}

/// Parses the tokens of `tokens` from position `start` on.
fn parse_from(tokens: &Vec<Token>, start: usize) -> (r: Result<(Expr, usize), SyntaxError>)
    requires
        start <= tokens@.len(),
    ensures
        prefix_outcome(r) == parse_at(tokens@, start as int),
    decreases tokens@, tokens@.len() - start,
{
    if start >= tokens.len() {
        return Err(SyntaxError::new(SyntaxErrorKind::ExpectedOperand, start));
    }
    // a left operand: a literal or a parenthesised group
    let left = match &tokens[start] {
        Token::Lit(l) => Expr::Lit(*l),
        Token::Group(g) => {
            proof {
                assert(decreases_to!(tokens@ => tokens@[start as int]));
                assert(decreases_to!(tokens@[start as int] => *g));
                assert(decreases_to!(*g => g@));
            }
            match parse_from(g, 0) {
                Ok((x, n)) => {
                    if n == g.len() {
                        Expr::Par(Box::new(x))
                    } else {
                        let mut err = SyntaxError::new(SyntaxErrorKind::UnexpectedToken, start);
                        err.at.push(n);
                        proof {
                            assert(err.at@ =~= seq![start, n]);
                        }
                        return Err(err);
                    }
                },
                Err(err) => {
                    let mut at = err.at;
                    at.insert(0, start);
                    proof {
                        assert(at@ =~= seq![start] + err.at@);
                    }
                    return Err(SyntaxError { kind: err.kind, at });
                },
            }
        },
        _ => {
            return Err(SyntaxError::new(SyntaxErrorKind::ExpectedOperand, start));
        },
    };
    // an operator and a right-hand side, or the end of the expression
    if start + 1 < tokens.len() {
        if let Token::Op(op) = &tokens[start + 1] {
            return match parse_from(tokens, start + 2) {
                Ok((right, n)) => Ok((Expr::bin_op(*op, left, right), n)),
                Err(err) => Err(err),
            };
        }
    }
    Ok((left, start + 1))
}

impl Expr {
    /// Parses an expression from the front of a token stream into a
    /// right-leaning tree (see `parse_at`), with the number of tokens it
    /// took: `2 - 4 - 5` gives `2 - (4 - 5)` whatever the operators'
    /// priorities, and `1 2` gives `1` after one token.
    pub fn parse(tokens: &Vec<Token>) -> (r: Result<(Expr, usize), SyntaxError>)
        ensures
            prefix_outcome(r) == parse_at(tokens@, 0),
    {
        parse_from(tokens, 0)
    }

    /// Parses a whole token stream: any token left after the expression is
    /// an `UnexpectedToken` error at its position.
    pub fn parse_all(tokens: &Vec<Token>) -> (r: Result<Expr, SyntaxError>)
        ensures
            outcome(r) == parse_all(tokens@),
    {
        match parse_from(tokens, 0) {
            Ok((e, n)) => {
                if n == tokens.len() {
                    Ok(e)
                } else {
                    Err(SyntaxError::new(SyntaxErrorKind::UnexpectedToken, n))
                }
            },
            Err(err) => Err(err),
        }
    }
}

/// Parses a whole token stream and regroups the tree by operator
/// precedence.
pub fn parse_climbed(tokens: &Vec<Token>) -> (r: Result<Expr, SyntaxError>)
    ensures
        outcome(r) == match parse_all(tokens@) {
            Ok(e) => Ok(climbed(e)),
            Err(err) => Parsed::<Expr>::Err(err),
        },
{
    match Expr::parse_all(tokens) {
        Ok(e) => Ok(climb(e)),
        Err(err) => Err(err),
    }
}


/// The operand that an operand token stands for once climbed: a literal,
/// or a group holding its contents in precedence form.
pub open spec fn operand_of(t: Token) -> Expr {
    match t {
        Token::Group(g) => Expr::Par(Box::new(climbed(parse_all(g@)->Ok_0))),
        Token::Lit(l) => Expr::Lit(l),
        _ => Expr::Lit(Literal::Bool(false)),
    }
}

/// The operator/operand pairs written in `ts` from position `i` up to `n`,
/// where operands and operators alternate from an operand at `i`.
pub open spec fn written_pairs(ts: Seq<Token>, i: int, n: int) -> Seq<(Op, Expr)> {
    Seq::new(
        ((n - i - 1) / 2) as nat,
        |j: int| (ts[i + 2 * j + 1]->Op_0, operand_of(ts[i + 2 * j + 2])),
    )
}

/// Reading a parsed prefix left to right gives its operands and operators
/// as written.
proof fn lemma_flat_parse(ts: Seq<Token>, i: int)
    requires
        parse_at(ts, i) is Ok,
    ensures
        ({
            let (e, n) = parse_at(ts, i)->Ok_0;
            &&& 0 <= i < n <= ts.len()
            &&& (n - i) % 2 == 1
            &&& flat(e) == (operand_of(ts[i]), written_pairs(ts, i, n))
        }),
    decreases ts.len() - i,
{
    let (e, n) = parse_at(ts, i)->Ok_0;
    let left = match ts[i] {
        Token::Group(g) => Expr::Par(Box::new(parse_all(g@)->Ok_0)),
        _ => Expr::Lit(ts[i]->Lit_0),
    };
    assert(flat(left).0 == operand_of(ts[i]));
    if i + 1 < ts.len() && ts[i + 1] is Op {
        lemma_flat_parse(ts, i + 2);
        let right = parse_at(ts, i + 2)->Ok_0.0;
        assert(e == Expr::BinOp(ts[i + 1]->Op_0, Box::new(left), Box::new(right)));
        assert(flat(left).1 =~= Seq::<(Op, Expr)>::empty());
        let w = written_pairs(ts, i, n);
        let w2 = written_pairs(ts, i + 2, n);
        assert(flat(e).1 =~= w) by {
            assert forall|j: int| 1 <= j < w.len() implies #[trigger] w[j] == w2[j - 1] by {
                assert(i + 2 * j + 1 == (i + 2) + 2 * (j - 1) + 1);
            }
        }
    } else {
        assert(e == left);
        assert(written_pairs(ts, i, n) =~= Seq::<(Op, Expr)>::empty());
    }
}

/// Parsing a whole stream and then climbing groups it by standard
/// precedence: the result is the precedence tree of the operands and
/// operators in the order written, whatever shape the plain parse had, and
/// its value is their left-to-right evaluation under standard precedence.
pub proof fn lemma_climb_parse(ts: Seq<Token>)
    requires
        parse_all(ts) is Ok,
    ensures
        climbed(parse_all(ts)->Ok_0) == prec_tree(operand_of(ts[0]), written_pairs(ts, 0, ts.len() as int)),
        climbed(parse_all(ts)->Ok_0).value() == standard_value(
            operand_of(ts[0]),
            written_pairs(ts, 0, ts.len() as int),
        ),
        inorder(climbed(parse_all(ts)->Ok_0)) == (
            operand_of(ts[0]),
            written_pairs(ts, 0, ts.len() as int),
        ),
{
    lemma_flat_parse(ts, 0);
    lemma_climb_keeps_order(parse_all(ts)->Ok_0);
    lemma_climb_standard_value(parse_all(ts)->Ok_0);
}

} // verus!
