use vstd::prelude::*;

use crate::ast::{binary_value, BinaryOp};
use crate::cfg::{build_expr_spec, BuildState, Operand};
use crate::cfg_runtime::{binary_spec, CfgRuntimeError};
use crate::ir::{lower_expr_spec, IrValue};
use crate::runtime::{eval_ir_spec, run_binary, RuntimeError};
use crate::ssa::lower_value_spec;
use crate::ssa::Operand as SsaOperand;
use crate::ast::{Expr, SpecStatement};
use crate::cfg::{find_block, BlockId, SpecCfg, Terminator, ValueId};
use crate::cfg_runtime::{block_values, resolve_spec, run_spec};
use crate::types::{
    binary_result_type_spec, check_expr_spec, check_statement_spec, CheckState, SemanticError, Symbol, SymbolId,
    Type, TypedExpr,
};

verus! {

/// Whether a comparison operator holds between two integers, read as mathematics.
pub open spec fn compares(op: BinaryOp, left: int, right: int) -> bool {
    match op {
        BinaryOp::Equal => left == right,
        BinaryOp::NotEqual => left != right,
        BinaryOp::Less => left < right,
        BinaryOp::LessEqual => left <= right,
        BinaryOp::Greater => left > right,
        BinaryOp::GreaterEqual => left >= right,
        _ => false,
    }
}

/// Whether an integer fits in 64 bits.
pub open spec fn fits_i64(value: int) -> bool {
    i64::MIN <= value <= i64::MAX
}

/// Whether `q` is `left / right` rounded toward zero: the remainder `left - q * right` is
/// smaller than the divisor and has the sign of the dividend (or is zero).
pub open spec fn truncated_quotient(left: int, right: int, q: int) -> bool {
    let m = left - q * right;
    &&& (if m < 0 { -m } else { m }) < (if right < 0 { -right } else { right })
    &&& (m == 0 || (m < 0) == (left < 0))
}

/// What every operator computes on two 64-bit integers: the six comparisons yield 1 when they
/// hold and 0 when they do not; `+`, `-` and `*` yield the exact sum, difference and product when
/// it fits in 64 bits and nothing otherwise; `/` yields nothing for a zero divisor or for the one
/// quotient that does not fit (the least value divided by -1), and otherwise the quotient rounded
/// toward zero.
pub proof fn lemma_binary_value_meaning(op: BinaryOp, left: i64, right: i64)
    ensures
        (op is Equal || op is NotEqual || op is Less || op is LessEqual || op is Greater || op is GreaterEqual)
            ==> binary_value(op, left, right) == Some(
            if compares(op, left as int, right as int) {
                1i64
            } else {
                0i64
            },
        ),
        op is Add ==> (binary_value(op, left, right) is Some <==> fits_i64(left + right)) && (binary_value(
            op,
            left,
            right,
        ) matches Some(v) ==> v == left + right),
        op is Subtract ==> (binary_value(op, left, right) is Some <==> fits_i64(left - right)) && (
        binary_value(op, left, right) matches Some(v) ==> v == left - right),
        op is Multiply ==> (binary_value(op, left, right) is Some <==> fits_i64(left * right)) && (
        binary_value(op, left, right) matches Some(v) ==> v == left * right),
        op is Divide ==> (binary_value(op, left, right) is None <==> (right == 0 || (left == i64::MIN
            && right == -1))) && (binary_value(op, left, right) matches Some(q) ==> truncated_quotient(
            left as int,
            right as int,
            q as int,
        )),
{
    if op is Divide {
        lemma_division_meaning(left, right);
    }
}

proof fn lemma_division_meaning(left: i64, right: i64)
    ensures
        binary_value(BinaryOp::Divide, left, right) is None <==> (right == 0 || (left == i64::MIN && right
            == -1)),
        binary_value(BinaryOp::Divide, left, right) matches Some(q) ==> truncated_quotient(
            left as int,
            right as int,
            q as int,
        ),
{
    let x = left as int;
    let d = right as int;
    if d != 0 && x != 0 {
        if x > 0 && d > 0 {
            let q = x / d;
            assert(x == d * q + x % d && 0 <= x % d < d) by {
                vstd::arithmetic::div_mod::lemma_fundamental_div_mod(x, d);
                vstd::arithmetic::div_mod::lemma_mod_pos_bound(x, d);
            }
            assert(0 <= q <= x) by (nonlinear_arith)
                requires
                    x > 0,
                    d > 0,
                    q == x / d,
            ;
            assert(x - q * d == x % d) by (nonlinear_arith)
                requires
                    x == d * q + x % d,
            ;
            assert(binary_value(BinaryOp::Divide, left, right) == Some(q as i64));
            assert(truncated_quotient(x, d, q));
        } else if x < 0 && d < 0 {
            let a = -x;
            let b = -d;
            let q = a / b;
            assert(a == b * q + a % b && 0 <= a % b < b) by {
                vstd::arithmetic::div_mod::lemma_fundamental_div_mod(a, b);
                vstd::arithmetic::div_mod::lemma_mod_pos_bound(a, b);
            }
            assert(x * -1 == a && d * -1 == b);
            assert(0 <= q <= a) by (nonlinear_arith)
                requires
                    a > 0,
                    b > 0,
                    q == a / b,
            ;
            assert(x - q * d == -(a % b)) by (nonlinear_arith)
                requires
                    a == b * q + a % b,
                    a == -x,
                    b == -d,
            ;
            if !(left == i64::MIN && right == -1) {
                assert(q <= i64::MAX) by (nonlinear_arith)
                    requires
                        a > 0,
                        b > 0,
                        q == a / b,
                        a <= 0x8000_0000_0000_0000,
                        a != 0x8000_0000_0000_0000 || b != 1,
                {
                    if b >= 2 {
                        assert(a / b <= a / 2);
                    }
                }
                assert(binary_value(BinaryOp::Divide, left, right) == Some(q as i64));
                assert(truncated_quotient(x, d, q));
            } else {
                assert(q == a) by (nonlinear_arith)
                    requires
                        b == 1,
                        q == a / b,
                ;
                assert(binary_value(BinaryOp::Divide, left, right) is None);
            }
        } else if x < 0 {
            let a = -x;
            let q0 = a / d;
            assert(a == d * q0 + a % d && 0 <= a % d < d) by {
                vstd::arithmetic::div_mod::lemma_fundamental_div_mod(a, d);
                vstd::arithmetic::div_mod::lemma_mod_pos_bound(a, d);
            }
            assert(x * -1 == a);
            assert(0 <= q0 <= a) by (nonlinear_arith)
                requires
                    a > 0,
                    d > 0,
                    q0 == a / d,
            ;
            let q = q0 * -1;
            assert(x - q * d == -(a % d)) by (nonlinear_arith)
                requires
                    a == d * q0 + a % d,
                    a == -x,
                    q == q0 * -1,
            ;
            assert(binary_value(BinaryOp::Divide, left, right) == Some(q as i64));
            assert(truncated_quotient(x, d, q));
        } else {
            let b = -d;
            let q0 = x / b;
            assert(x == b * q0 + x % b && 0 <= x % b < b) by {
                vstd::arithmetic::div_mod::lemma_fundamental_div_mod(x, b);
                vstd::arithmetic::div_mod::lemma_mod_pos_bound(x, b);
            }
            assert(d * -1 == b);
            assert(0 <= q0 <= x) by (nonlinear_arith)
                requires
                    x > 0,
                    b > 0,
                    q0 == x / b,
            ;
            let q = q0 * -1;
            assert(x - q * d == x % b) by (nonlinear_arith)
                requires
                    x == b * q0 + x % b,
                    b == -d,
                    q == q0 * -1,
            ;
            assert(binary_value(BinaryOp::Divide, left, right) == Some(q as i64));
            assert(truncated_quotient(x, d, q));
        }
    }
}

/// Both interpreters evaluate an operation by its meaning: a division by zero is reported as such,
/// any other operation without a 64-bit result as an overflow, and every other one gives its
/// value; a comparison gives 1 exactly when it holds.
pub proof fn lemma_interpreters_evaluate_meaning(op: BinaryOp, left: i64, right: i64)
    ensures
        op is Divide && right == 0 ==> run_binary(op, left, right) == Err::<i64, RuntimeError>(
            RuntimeError::DivisionByZero,
        ) && binary_spec(op, left, right) == Err::<i64, CfgRuntimeError>(CfgRuntimeError::DivisionByZero),
        !(op is Divide && right == 0) ==> match binary_value(op, left, right) {
            Some(v) => run_binary(op, left, right) == Ok::<i64, RuntimeError>(v) && binary_spec(
                op,
                left,
                right,
            ) == Ok::<i64, CfgRuntimeError>(v),
            None => run_binary(op, left, right) == Err::<i64, RuntimeError>(RuntimeError::IntegerOverflow)
                && binary_spec(op, left, right) == Err::<i64, CfgRuntimeError>(
                CfgRuntimeError::IntegerOverflow,
            ),
        },
        (op is Equal || op is NotEqual || op is Less || op is LessEqual || op is Greater || op is GreaterEqual)
            ==> run_binary(op, left, right) == Ok::<i64, RuntimeError>(
            if compares(op, left as int, right as int) {
                1i64
            } else {
                0i64
            },
        ) && binary_spec(op, left, right) == Ok::<i64, CfgRuntimeError>(
            if compares(op, left as int, right as int) {
                1i64
            } else {
                0i64
            },
        ),
{
    lemma_binary_value_meaning(op, left, right);
}

/// The type of a binary operation: `==` and `!=` compare two operands of one type and give a
/// boolean; `<`, `<=`, `>` and `>=` compare two integers and give a boolean; `+`, `-`, `*` and `/`
/// combine two integers into an integer; any other pairing of operand types is rejected.
pub proof fn lemma_binary_types(op: BinaryOp, left: Type, right: Type)
    ensures
        (op is Equal || op is NotEqual) ==> binary_result_type_spec(op, left, right) == if left == right {
            Ok::<Type, SemanticError>(Type::Bool)
        } else {
            Err::<Type, SemanticError>(SemanticError::InvalidBinaryOperands)
        },
        (op is Less || op is LessEqual || op is Greater || op is GreaterEqual) ==> binary_result_type_spec(
            op,
            left,
            right,
        ) == if left == Type::I64 && right == Type::I64 {
            Ok::<Type, SemanticError>(Type::Bool)
        } else {
            Err::<Type, SemanticError>(SemanticError::InvalidBinaryOperands)
        },
        (op is Add || op is Subtract || op is Multiply || op is Divide) ==> binary_result_type_spec(
            op,
            left,
            right,
        ) == if left == Type::I64 && right == Type::I64 {
            Ok::<Type, SemanticError>(Type::I64)
        } else {
            Err::<Type, SemanticError>(SemanticError::InvalidBinaryOperands)
        },
{
}

/// A literal stands for its value at every stage: an integer for itself, `true` for 1 and
/// `false` for 0. The graph builder lowers it to that constant without touching its state, the
/// linear form keeps it, the interpreter of the linear form gives that value, and lowering to
/// SSA turns it into that constant without any instruction.
pub proof fn lemma_literals_mean_their_values(
    s: BuildState,
    value: bool,
    number: i64,
    ty: Type,
    env: Map<SymbolId, i64>,
    symbols: Map<SymbolId, SsaOperand>,
    next: int,
)
    ensures
        build_expr_spec(s, TypedExpr::Boolean { value, ty }) == (s, Operand::Constant(if value { 1i64 } else { 0i64 })),
        build_expr_spec(s, TypedExpr::Integer { value: number, ty }) == (s, Operand::Constant(number)),
        value ==> build_expr_spec(s, TypedExpr::Boolean { value, ty }).1 == Operand::Constant(1),
        !value ==> build_expr_spec(s, TypedExpr::Boolean { value, ty }).1 == Operand::Constant(0),
        lower_expr_spec(TypedExpr::Boolean { value, ty }) == (IrValue::Boolean { value, ty }),
        lower_expr_spec(TypedExpr::Integer { value: number, ty }) == (IrValue::Constant { value: number, ty }),
        value ==> eval_ir_spec(env, IrValue::Boolean { value, ty }) == Ok::<i64, RuntimeError>(1),
        !value ==> eval_ir_spec(env, IrValue::Boolean { value, ty }) == Ok::<i64, RuntimeError>(0),
        eval_ir_spec(env, IrValue::Constant { value: number, ty }) == Ok::<i64, RuntimeError>(number),
        value ==> lower_value_spec(symbols, next, IrValue::Boolean { value, ty }).0 == SsaOperand::Constant(1),
        !value ==> lower_value_spec(symbols, next, IrValue::Boolean { value, ty }).0 == SsaOperand::Constant(0),
        lower_value_spec(symbols, next, IrValue::Boolean { value, ty }).1.len() == 0,
        lower_value_spec(symbols, next, IrValue::Constant { value: number, ty }).0 == SsaOperand::Constant(number),
{
}

/// Whether an expression type-checks as an integer.
pub open spec fn integer_typed(scope: Seq<Symbol>, e: Expr) -> bool {
    check_expr_spec(scope, e) is Ok && check_expr_spec(scope, e).unwrap().spec_ty() == Type::I64
}

/// Literals have their types (numbers are integers, `true` and `false` booleans); comparing two
/// integer expressions, `!=` included, gives a boolean, which an `if` accepts as its condition;
/// an arithmetic condition is rejected.
pub proof fn lemma_typing_of_conditions(
    state: CheckState,
    number: i64,
    value: bool,
    left: Expr,
    op: BinaryOp,
    right: Expr,
    then_branch: Seq<SpecStatement>,
    else_branch: Seq<SpecStatement>,
)
    ensures
        check_expr_spec(state.scope, Expr::Integer(number)) == Ok::<TypedExpr, SemanticError>(
            TypedExpr::Integer { value: number, ty: Type::I64 },
        ),
        check_expr_spec(state.scope, Expr::Boolean(value)) == Ok::<TypedExpr, SemanticError>(
            TypedExpr::Boolean { value, ty: Type::Bool },
        ),
        ({
            let cond = Expr::Binary { left: Box::new(left), op, right: Box::new(right) };
            (op is Equal || op is NotEqual || op is Less || op is LessEqual || op is Greater || op is GreaterEqual)
                && integer_typed(state.scope, left) && integer_typed(state.scope, right) ==> check_expr_spec(
                state.scope,
                cond,
            ) is Ok && check_expr_spec(state.scope, cond).unwrap().spec_ty() == Type::Bool
                && (check_statement_spec(state, SpecStatement::If { condition: cond, then_branch, else_branch }).0
                != Err::<crate::types::SpecTypedStatement, SemanticError>(SemanticError::NonBooleanCondition)
                || crate::types::check_block_spec(state, then_branch).0 is Err || crate::types::check_block_spec(
                CheckState {
                    scope: state.scope,
                    symbols: crate::types::check_block_spec(state, then_branch).1.symbols,
                    next_id: crate::types::check_block_spec(state, then_branch).1.next_id,
                },
                else_branch,
            ).0 is Err)
        }),
        ({
            let cond = Expr::Binary { left: Box::new(left), op, right: Box::new(right) };
            (op is Add || op is Subtract || op is Multiply || op is Divide) && integer_typed(state.scope, left)
                && integer_typed(state.scope, right) ==> check_statement_spec(
                state,
                SpecStatement::If { condition: cond, then_branch, else_branch },
            ).0 == Err::<crate::types::SpecTypedStatement, SemanticError>(SemanticError::NonBooleanCondition)
        }),
{
    lemma_binary_types(op, Type::I64, Type::I64);
}

/// A run follows a branch by the value of its condition: to the then block when it is not zero
/// (as a comparison that holds gives 1), to the else block when it is zero.
pub proof fn lemma_branch_follows_condition(
    g: SpecCfg,
    fuel: nat,
    current: BlockId,
    predecessor: Option<BlockId>,
    values: Map<ValueId, i64>,
)
    requires
        fuel > 0,
        find_block(g.blocks, current) matches Some(i) && g.blocks[i].terminator matches Some(
            Terminator::Branch { .. },
        ) && block_values(g.blocks[i], predecessor, values) is Ok,
    ensures
        ({
            let i = find_block(g.blocks, current).unwrap();
            let after = block_values(g.blocks[i], predecessor, values).unwrap();
            let t = g.blocks[i].terminator.unwrap();
            (match resolve_spec(after, t->Branch_condition) {
                Ok(c) => c != 0 ==> run_spec(g, fuel, current, predecessor, values) == run_spec(
                    g,
                    (fuel - 1) as nat,
                    t->Branch_then_block,
                    Some(current),
                    after,
                ),
                Err(e) => run_spec(g, fuel, current, predecessor, values) == Err::<i64, CfgRuntimeError>(e),
            }) && match resolve_spec(after, t->Branch_condition) {
                Ok(c) => c == 0 ==> run_spec(g, fuel, current, predecessor, values) == run_spec(
                    g,
                    (fuel - 1) as nat,
                    t->Branch_else_block,
                    Some(current),
                    after,
                ),
                Err(_) => true,
            }
        }),
{
}

} // verus!
