use vstd::prelude::*;

use crate::ast::BinaryOp;
use crate::types::{
    typed_statements_view, SpecTypedStatement, SymbolId, Type, TypedExpr, TypedProgram,
    TypedStatement,
};

verus! {

/// A value tree of the linear intermediate representation.
#[derive(Debug, PartialEq, Eq)]
pub enum IrValue {
    Constant { value: i64, ty: Type },
    Boolean { value: bool, ty: Type },
    Symbol { symbol_id: SymbolId, ty: Type },
    Binary { left: Box<IrValue>, op: BinaryOp, right: Box<IrValue>, ty: Type },
}

impl Clone for IrValue {
    fn clone(&self) -> (copy: Self)
        ensures
            copy == *self,
        decreases self,
    {
        match self {
            IrValue::Constant { value, ty } => IrValue::Constant { value: *value, ty: *ty },
            IrValue::Boolean { value, ty } => IrValue::Boolean { value: *value, ty: *ty },
            IrValue::Symbol { symbol_id, ty } => IrValue::Symbol { symbol_id: *symbol_id, ty: *ty },
            IrValue::Binary { left, op, right, ty } => IrValue::Binary {
                left: Box::new((**left).clone()),
                op: *op,
                right: Box::new((**right).clone()),
                ty: *ty,
            },
        }
    }
}

impl IrValue {
    pub open spec fn spec_ty(self) -> Type {
        match self {
            IrValue::Constant { ty, .. } => ty,
            IrValue::Boolean { ty, .. } => ty,
            IrValue::Symbol { ty, .. } => ty,
            IrValue::Binary { ty, .. } => ty,
        }
    }

    pub fn ty(&self) -> (ty: Type)
        ensures
            ty == self.spec_ty(),
    {
        match self {
            IrValue::Constant { ty, .. } => *ty,
            IrValue::Boolean { ty, .. } => *ty,
            IrValue::Symbol { ty, .. } => *ty,
            IrValue::Binary { ty, .. } => *ty,
        }
    }
}

/// An instruction of the linear intermediate representation.
#[derive(Debug, Clone, PartialEq, Eq)]
pub enum IrInstruction {
    Bind { symbol_id: SymbolId, value: IrValue },
    Return { value: IrValue },
}

/// A straight-line program of the intermediate representation.
#[derive(Debug, Clone, PartialEq, Eq)]
pub struct IrProgram {
    instructions: Vec<IrInstruction>,
}

impl IrProgram {
    pub closed spec fn spec_instructions(self) -> Seq<IrInstruction> {
        self.instructions@
    }

    pub fn instructions(&self) -> (instructions: &[IrInstruction])
        ensures
            instructions@ == self.spec_instructions(),
    {
        self.instructions.as_slice()
    }
}

/// The value tree of a typed expression.
pub open spec fn lower_expr_spec(expr: TypedExpr) -> IrValue
    decreases expr,
{
    match expr {
        TypedExpr::Integer { value, ty } => IrValue::Constant { value, ty },
        TypedExpr::Boolean { value, ty } => IrValue::Boolean { value, ty },
        TypedExpr::Symbol { symbol_id, ty, .. } => IrValue::Symbol { symbol_id, ty },
        TypedExpr::Binary { left, op, right, ty } => IrValue::Binary {
            left: Box::new(lower_expr_spec(*left)),
            op,
            right: Box::new(lower_expr_spec(*right)),
            ty,
        },
    }
}

/// Lowering keeps the type of every expression.
pub proof fn lemma_lowering_keeps_types(expr: TypedExpr)
    ensures
        lower_expr_spec(expr).spec_ty() == expr.spec_ty(),
{
}

/// The instruction of a branch-free typed statement: a binding (from `let` or an assignment)
/// or a return.
pub open spec fn lower_statement_spec(statement: SpecTypedStatement) -> IrInstruction {
    match statement {
        SpecTypedStatement::Let { symbol, value } => IrInstruction::Bind {
            symbol_id: symbol.spec_id(),
            value: lower_expr_spec(value),
        },
        SpecTypedStatement::Assign { symbol, value } => IrInstruction::Bind {
            symbol_id: symbol.spec_id(),
            value: lower_expr_spec(value),
        },
        SpecTypedStatement::Return { value } => IrInstruction::Return {
            value: lower_expr_spec(value),
        },
        SpecTypedStatement::If { condition, .. } => IrInstruction::Return {
            value: lower_expr_spec(condition),
        },
    }
}

/// Whether a typed block has no branches (only such blocks lower to the linear representation).
pub open spec fn branch_free(statements: Seq<SpecTypedStatement>) -> bool {
    forall|i: int| 0 <= i < statements.len() ==> !(#[trigger] statements[i] is If)
}

/// Lowers branch-free typed programs to the linear representation.
pub struct Lowerer;

impl Lowerer {
    /// Whether the program can be lowered to the linear representation: none of its statements
    /// branches.
    pub fn can_lower(program: &TypedProgram) -> (ok: bool)
        ensures
            ok == branch_free(program.spec_statements()),
    {
        let statements = program.statements();
        let mut i: usize = 0;
        while i < statements.len()
            invariant
                typed_statements_view(statements@) == program.spec_statements(),
                0 <= i <= statements.len(),
                forall|j: int| 0 <= j < i ==> !(#[trigger] program.spec_statements()[j] is If),
            decreases statements.len() - i,
        {
            assert(program.spec_statements()[i as int] == statements@[i as int]@);
            if let TypedStatement::If { .. } = &statements[i] {
                return false;
            }
            i = i + 1;
        }
        true
    }

    pub fn lower(program: &TypedProgram) -> (ir: IrProgram)
        requires
            branch_free(program.spec_statements()),
        ensures
            ir.spec_instructions() == program.spec_statements().map_values(
                |s: SpecTypedStatement| lower_statement_spec(s),
            ),
    {
        let statements = program.statements();
        let ghost view = typed_statements_view(statements@);
        let mut instructions: Vec<IrInstruction> = Vec::new();
        let mut i: usize = 0;
        while i < statements.len()
            invariant
                view == typed_statements_view(statements@),
                view == program.spec_statements(),
                branch_free(view),
                0 <= i <= statements@.len(),
                instructions@ =~= view.subrange(0, i as int).map_values(
                    |s: SpecTypedStatement| lower_statement_spec(s),
                ),
            decreases statements.len() - i,
        {
            proof {
                assert(view[i as int] == statements@[i as int]@);
                assert(!(view[i as int] is If));
            }
            let instruction = match &statements[i] {
                TypedStatement::Let { symbol, value } => IrInstruction::Bind {
                    symbol_id: symbol.id(),
                    value: lower_expr(value),
                },
                TypedStatement::Assign { symbol, value } => IrInstruction::Bind {
                    symbol_id: symbol.id(),
                    value: lower_expr(value),
                },
                TypedStatement::Return { value } => IrInstruction::Return {
                    value: lower_expr(value),
                },
                TypedStatement::If { condition, .. } => IrInstruction::Return {
                    value: lower_expr(condition),
                },
            };
            instructions.push(instruction);
            i = i + 1;
            proof {
                assert(view.subrange(0, i as int) =~= view.subrange(0, i - 1).push(view[i - 1]));
            }
        }
        proof {
            assert(view.subrange(0, i as int) =~= view);
        }
        IrProgram { instructions }
    }
}

fn lower_expr(expr: &TypedExpr) -> (value: IrValue)
    ensures
        value == lower_expr_spec(*expr),
    decreases expr,
{
    match expr {
        TypedExpr::Integer { value, ty } => IrValue::Constant { value: *value, ty: *ty },
        TypedExpr::Boolean { value, ty } => IrValue::Boolean { value: *value, ty: *ty },
        TypedExpr::Symbol { symbol_id, ty, .. } => IrValue::Symbol { symbol_id: *symbol_id, ty: *ty },
        TypedExpr::Binary { left, op, right, ty } => IrValue::Binary {
            left: Box::new(lower_expr(left)),
            op: *op,
            right: Box::new(lower_expr(right)),
            ty: *ty,
        },
    }
}

} // verus!
