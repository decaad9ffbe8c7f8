use vstd::prelude::*;

verus! {

/// Binary operators of the source language.
#[derive(Debug, Clone, Copy, PartialEq, Eq, Structural)]
pub enum BinaryOp {
    Add,
    Subtract,
    Multiply,
    Divide,
    Equal,
    NotEqual,
    Less,
    LessEqual,
    Greater,
    GreaterEqual,
}

impl BinaryOp {
    /// Whether the operator compares its operands (and yields a boolean).
    pub open spec fn is_comparison(self) -> bool {
        !(self is Add || self is Subtract || self is Multiply || self is Divide)
    }
}

/// The value of `left op right` in 64-bit arithmetic: `None` when the result does not fit or the
/// divisor is zero. Division truncates toward zero; comparisons yield 1 or 0.
pub open spec fn binary_value(op: BinaryOp, left: i64, right: i64) -> Option<i64> {
    match op {
        BinaryOp::Add => left.checked_add(right),
        BinaryOp::Subtract => left.checked_sub(right),
        BinaryOp::Multiply => left.checked_mul(right),
        BinaryOp::Divide => left.checked_div(right),
        BinaryOp::Equal => Some(if left == right { 1i64 } else { 0i64 }),
        BinaryOp::NotEqual => Some(if left != right { 1i64 } else { 0i64 }),
        BinaryOp::Less => Some(if left < right { 1i64 } else { 0i64 }),
        BinaryOp::LessEqual => Some(if left <= right { 1i64 } else { 0i64 }),
        BinaryOp::Greater => Some(if left > right { 1i64 } else { 0i64 }),
        BinaryOp::GreaterEqual => Some(if left >= right { 1i64 } else { 0i64 }),
    }
}

/// Evaluates `left op right`, or `None` when the result does not fit or the divisor is zero.
pub fn fold_binary(op: BinaryOp, left: i64, right: i64) -> (value: Option<i64>)
    ensures
        value == binary_value(op, left, right),
{
    match op {
        BinaryOp::Add => left.checked_add(right),
        BinaryOp::Subtract => left.checked_sub(right),
        BinaryOp::Multiply => left.checked_mul(right),
        BinaryOp::Divide => {
            if right == 0 {
                None
            } else {
                left.checked_div(right)
            }
        },
        BinaryOp::Equal => Some(if left == right { 1 } else { 0 }),
        BinaryOp::NotEqual => Some(if left != right { 1 } else { 0 }),
        BinaryOp::Less => Some(if left < right { 1 } else { 0 }),
        BinaryOp::LessEqual => Some(if left <= right { 1 } else { 0 }),
        BinaryOp::Greater => Some(if left > right { 1 } else { 0 }),
        BinaryOp::GreaterEqual => Some(if left >= right { 1 } else { 0 }),
    }
}

/// Expressions of the source language.
#[derive(Debug, PartialEq)]
pub enum Expr {
    Integer(i64),
    Boolean(bool),
    Identifier(String),
    Binary { left: Box<Expr>, op: BinaryOp, right: Box<Expr> },
}

/// Statements of the source language.
#[derive(Debug, PartialEq)]
pub enum Statement {
    Let { name: String, value: Expr },
    Assign { name: String, value: Expr },
    Return(Expr),
    If { condition: Expr, then_branch: Vec<Statement>, else_branch: Vec<Statement> },
}

/// A parsed program: a sequence of top-level statements.
#[derive(Debug, PartialEq)]
pub struct Program {
    pub statements: Vec<Statement>,
}

impl Clone for Expr {
    fn clone(&self) -> (copy: Self)
        ensures
            copy == *self,
        decreases self,
    {
        match self {
            Expr::Integer(value) => Expr::Integer(*value),
            Expr::Boolean(value) => Expr::Boolean(*value),
            Expr::Identifier(name) => Expr::Identifier(name.clone()),
            Expr::Binary { left, op, right } => Expr::Binary {
                left: Box::new((**left).clone()),
                op: *op,
                right: Box::new((**right).clone()),
            },
        }
    }
}

pub enum SpecStatement {
    Let { name: String, value: Expr },
    Assign { name: String, value: Expr },
    Return(Expr),
    If { condition: Expr, then_branch: Seq<SpecStatement>, else_branch: Seq<SpecStatement> },
}

impl View for Statement {
    type V = SpecStatement;

    open spec fn view(&self) -> SpecStatement
        decreases self,
    {
        match self {
            Statement::Let { name, value } => SpecStatement::Let { name: *name, value: *value },
            Statement::Assign { name, value } => SpecStatement::Assign { name: *name, value: *value },
            Statement::Return(value) => SpecStatement::Return(*value),
            Statement::If { condition, then_branch, else_branch } => SpecStatement::If {
                condition: *condition,
                then_branch: statements_view(then_branch@),
                else_branch: statements_view(else_branch@),
            },
        }
    }
}

/// The views of a sequence of statements.
pub open spec fn statements_view(statements: Seq<Statement>) -> Seq<SpecStatement>
    decreases statements,
{
    Seq::new(
        statements.len(),
        |i: int|
            if 0 <= i < statements.len() {
                statements[i].view()
            } else {
                SpecStatement::Return(Expr::Integer(0))
            },
    )
}
}
