use vstd::prelude::*;

verus! {

/// A literal value of the expression language.
#[derive(Debug, Clone, Copy, PartialEq, Eq, Structural)]
pub enum Literal {
    Bool(bool),
    Int(i32),
}

/// A binary operator.
#[derive(Debug, Clone, Copy, PartialEq, Eq, Structural)]
pub enum Op {
    Add,
    Sub,
    Mul,
    Div,
    And,
    Or,
}

/// An expression tree: a literal, a binary operation owning both operands,
/// or a parenthesised sub-expression.
#[derive(Debug, PartialEq)]
pub enum Expr {
    Lit(Literal),
    BinOp(Op, Box<Expr>, Box<Expr>),
    Par(Box<Expr>),
}

/// The integer `v`, if it fits in an `i32`.
pub open spec fn int_result(v: int) -> Option<Literal> {
    if i32::MIN <= v <= i32::MAX {
        Some(Literal::Int(v as i32))
    } else {
        None
    }
}

impl Op {
    /// The binding strength of the operator: `*` and `/` bind tighter than
    /// `+`, `-`, `&&` and `||`, which share the loosest tier.
    pub open spec fn rank(self) -> u8 {
        match self {
            Op::Mul | Op::Div => 1,
            _ => 0,
        }
    }

    /// The literal that applying the operator to `left` and `right` gives, or
    /// `None` where the operand kinds do not fit the operator, the divisor is
    /// zero, or the integer result leaves the range of `i32`. Division
    /// truncates toward zero.
    pub open spec fn apply(self, left: Literal, right: Literal) -> Option<Literal> {
        match (self, left, right) {
            (Op::Add, Literal::Int(a), Literal::Int(b)) => int_result(a + b),
            (Op::Sub, Literal::Int(a), Literal::Int(b)) => int_result(a - b),
            (Op::Mul, Literal::Int(a), Literal::Int(b)) => int_result(a * b),
            (Op::Div, Literal::Int(a), Literal::Int(b)) => match a.checked_div(b) {
                Some(q) => Some(Literal::Int(q)),
                None => None,
            },
            (Op::And, Literal::Bool(a), Literal::Bool(b)) => Some(Literal::Bool(a && b)),
            (Op::Or, Literal::Bool(a), Literal::Bool(b)) => Some(Literal::Bool(a || b)),
            _ => None,
        }
    }

    /// Applies the operator to two literals.
    pub fn eval(&self, left: Literal, right: Literal) -> (r: Literal)
        requires
            self.apply(left, right) is Some,
        ensures
            self.apply(left, right) == Some(r),
    {
        match self {
            Op::Add => Literal::Int(left.get_int() + right.get_int()),
            Op::Sub => Literal::Int(left.get_int() - right.get_int()),
            Op::Mul => Literal::Int(left.get_int() * right.get_int()),
            Op::Div => {
                let q = left.get_int().checked_div(right.get_int());
                match q {
                    Some(q) => Literal::Int(q),
                    None => left,
                }
            },
            Op::And => Literal::Bool(left.get_bool() && right.get_bool()),
            Op::Or => Literal::Bool(left.get_bool() || right.get_bool()),
        }
    }

    /// Applies the operator to two literals, or gives `None` where it does
    /// not accept them.
    pub fn try_eval(&self, left: Literal, right: Literal) -> (r: Option<Literal>)
        ensures
            r == self.apply(left, right),
    {
        match (self, left, right) {
            (Op::Add, Literal::Int(a), Literal::Int(b)) => match a.checked_add(b) {
                Some(v) => Some(Literal::Int(v)),
                None => None,
            },
            (Op::Sub, Literal::Int(a), Literal::Int(b)) => match a.checked_sub(b) {
                Some(v) => Some(Literal::Int(v)),
                None => None,
            },
            (Op::Mul, Literal::Int(a), Literal::Int(b)) => match a.checked_mul(b) {
                Some(v) => Some(Literal::Int(v)),
                None => None,
            },
            (Op::Div, Literal::Int(a), Literal::Int(b)) => match a.checked_div(b) {
                Some(v) => Some(Literal::Int(v)),
                None => None,
            },
            (Op::And, Literal::Bool(a), Literal::Bool(b)) => Some(Literal::Bool(a && b)),
            (Op::Or, Literal::Bool(a), Literal::Bool(b)) => Some(Literal::Bool(a || b)),
            _ => None,
        }
    }

    /// The operator priority: higher binds tighter.
    pub fn priority(&self) -> (r: u8)
        ensures
            r == self.rank(),
            r <= 1,
    {
        match self {
            Op::Add => 0,
            Op::Sub => 0,
            Op::Mul => 1,
            Op::Div => 1,
            Op::And => 0,
            Op::Or => 0,
        }
    }
}

impl Literal {
    /// The integer held by an integer literal.
    pub fn get_int(&self) -> (r: i32)
        requires
            self is Int,
        ensures
            r == self->Int_0,
    {
        match self {
            Literal::Int(i) => *i,
            Literal::Bool(_) => 0,
        }
    }

    /// The truth value held by a boolean literal.
    pub fn get_bool(&self) -> (r: bool)
        requires
            self is Bool,
        ensures
            r == self->Bool_0,
    {
        match self {
            Literal::Bool(b) => *b,
            Literal::Int(_) => false,
        }
    }
}

impl Expr {
    /// The literal the expression evaluates to, or `None` where some operator
    /// is applied to operands it does not accept (see `Op::apply`).
    pub open spec fn value(self) -> Option<Literal>
        decreases self,
    {
        match self {
            Expr::Lit(l) => Some(l),
            Expr::Par(e) => e.value(),
            Expr::BinOp(op, l, r) => match (l.value(), r.value()) {
                (Some(a), Some(b)) => op.apply(a, b),
                _ => None,
            },
        }
    }

    /// Evaluates the expression to a literal.
    pub fn eval(&self) -> (r: Literal)
        requires
            self.value() is Some,
        ensures
            self.value() == Some(r),
        decreases self,
    {
        match self {
            Expr::Lit(literal) => *literal,
            Expr::BinOp(op, left, right) => op.eval(left.eval(), right.eval()),
            Expr::Par(e) => e.eval(),
        }
    }

    /// Evaluates the expression, or gives `None` where some operator does not
    /// accept its operands.
    pub fn try_eval(&self) -> (r: Option<Literal>)
        ensures
            r == self.value(),
        decreases self,
    {
        match self {
            Expr::Lit(literal) => Some(*literal),
            Expr::BinOp(op, left, right) => match (left.try_eval(), right.try_eval()) {
                (Some(a), Some(b)) => op.try_eval(a, b),
                _ => None,
            },
            Expr::Par(e) => e.try_eval(),
        }
    }

    /// The node applying `o` to `left` and `right`.
    pub fn bin_op(o: Op, left: Expr, right: Expr) -> (r: Expr)
        ensures
            r == Expr::BinOp(o, Box::new(left), Box::new(right)),
    {
        Expr::BinOp(o, Box::new(left), Box::new(right))
    }
}


impl From<Literal> for Expr {
    fn from(lit: Literal) -> (r: Expr)
        ensures
            r == Expr::Lit(lit),
    {
        Expr::Lit(lit)
    }
}

impl vstd::std_specs::convert::FromSpecImpl<Literal> for Expr {
    open spec fn obeys_from_spec() -> bool {
        true
    }

    open spec fn from_spec(lit: Literal) -> Expr {
        Expr::Lit(lit)
    }
}

impl From<i32> for Literal {
    fn from(i: i32) -> (r: Literal)
        ensures
            r == Literal::Int(i),
    {
        Literal::Int(i)
    }
}

impl vstd::std_specs::convert::FromSpecImpl<i32> for Literal {
    open spec fn obeys_from_spec() -> bool {
        true
    }

    open spec fn from_spec(i: i32) -> Literal {
        Literal::Int(i)
    }
}

impl From<i32> for Expr {
    fn from(i: i32) -> (r: Expr)
        ensures
            r == Expr::Lit(Literal::Int(i)),
    {
        Expr::Lit(Literal::Int(i))
    }
}

impl vstd::std_specs::convert::FromSpecImpl<i32> for Expr {
    open spec fn obeys_from_spec() -> bool {
        true
    }

    open spec fn from_spec(i: i32) -> Expr {
        Expr::Lit(Literal::Int(i))
    }
}

} // verus!
