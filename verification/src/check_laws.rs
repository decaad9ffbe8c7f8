use vstd::prelude::*;

use crate::ast::SpecStatement;
use crate::build_laws::{lemma_checked_program_is_scoped, scope_ids};
use crate::cfg::{block_scoped, expr_scoped, statement_scoped};
use crate::ir::{branch_free, lower_expr_spec, lower_statement_spec, IrInstruction, IrValue};
use crate::runtime::{eval_ir_spec, run_ir_spec, RuntimeError};
use crate::types::{
    block_returns_spec, check_block_spec, check_spec, check_statement_spec, statement_returns_spec,
    CheckState, SpecTypedStatement, SymbolId, TypedExpr,
};

verus! {

/// Whether every path through a typed block ends in a `return`.
pub open spec fn typed_block_returns(statements: Seq<SpecTypedStatement>) -> bool
    decreases statements, 1nat,
{
    if statements.len() == 0 {
        false
    } else {
        typed_statement_returns(statements[0]) || typed_block_returns(
            statements.subrange(1, statements.len() as int),
        )
    }
}

/// Whether a typed statement returns on every path through it.
pub open spec fn typed_statement_returns(statement: SpecTypedStatement) -> bool
    decreases statement, 0nat,
{
    match statement {
        SpecTypedStatement::Return { .. } => true,
        SpecTypedStatement::If { then_branch, else_branch, .. } => typed_block_returns(then_branch)
            && typed_block_returns(else_branch),
        _ => false,
    }
}

proof fn lemma_checked_block_returns(state: CheckState, statements: Seq<SpecStatement>)
    ensures
        check_block_spec(state, statements).0 matches Ok(typed) ==> typed_block_returns(typed)
            == block_returns_spec(statements),
    decreases statements, 1nat,
{
    if statements.len() > 0 {
        let rest = statements.subrange(1, statements.len() as int);
        lemma_checked_statement_returns(state, statements[0]);
        let (first, after) = check_statement_spec(state, statements[0]);
        if let Ok(t) = first {
            lemma_checked_block_returns(after, rest);
            if let Ok(typed_rest) = check_block_spec(after, rest).0 {
                let all = seq![t] + typed_rest;
                assert(all[0] == t);
                assert(all.subrange(1, all.len() as int) =~= typed_rest);
            }
        }
    }
}

proof fn lemma_checked_statement_returns(state: CheckState, statement: SpecStatement)
    ensures
        check_statement_spec(state, statement).0 matches Ok(typed) ==> typed_statement_returns(typed)
            == statement_returns_spec(statement),
    decreases statement, 0nat,
{
    if let SpecStatement::If { condition, then_branch, else_branch } = statement {
        lemma_checked_block_returns(state, then_branch);
        let after_then = check_block_spec(state, then_branch).1;
        let between = CheckState {
            scope: state.scope,
            symbols: after_then.symbols,
            next_id: after_then.next_id,
        };
        lemma_checked_block_returns(between, else_branch);
    }
}

/// Every program the type checker accepts returns on every path.
pub proof fn lemma_checked_program_returns(state: CheckState, statements: Seq<SpecStatement>)
    ensures
        check_spec(state, statements).0 matches Ok((typed, _)) ==> typed_block_returns(typed),
{
    lemma_checked_block_returns(state, statements);
}

proof fn lemma_eval_not_missing_return(env: Map<SymbolId, i64>, value: IrValue)
    ensures
        eval_ir_spec(env, value) != Err::<i64, RuntimeError>(RuntimeError::MissingReturn),
    decreases value,
{
    if let IrValue::Binary { left, right, .. } = value {
        lemma_eval_not_missing_return(env, *left);
        lemma_eval_not_missing_return(env, *right);
    }
}

/// A branch-free block that returns on every path, lowered to the linear representation,
/// never runs to its end without returning.
pub proof fn lemma_returning_block_runs_to_return(env: Map<SymbolId, i64>, statements: Seq<SpecTypedStatement>)
    requires
        branch_free(statements),
        typed_block_returns(statements),
    ensures
        run_ir_spec(env, statements.map_values(|s: SpecTypedStatement| lower_statement_spec(s))).0
            != Err::<i64, RuntimeError>(RuntimeError::MissingReturn),
    decreases statements.len(),
{
    let lowered = statements.map_values(|s: SpecTypedStatement| lower_statement_spec(s));
    let rest = statements.subrange(1, statements.len() as int);
    assert(statements.len() > 0);
    assert(lowered[0] == lower_statement_spec(statements[0]));
    assert(lowered.subrange(1, lowered.len() as int) =~= rest.map_values(
        |s: SpecTypedStatement| lower_statement_spec(s),
    ));
    assert(!(statements[0] is If));
    match lowered[0] {
        IrInstruction::Bind { symbol_id, value } => {
            lemma_eval_not_missing_return(env, value);
            assert(!(statements[0] is Return));
            assert(!typed_statement_returns(statements[0]));
            assert(typed_block_returns(rest));
            if let Ok(v) = eval_ir_spec(env, value) {
                assert(branch_free(rest)) by {
                    assert forall|i: int| 0 <= i < rest.len() implies !(#[trigger] rest[i] is If) by {
                        assert(rest[i] == statements[i + 1]);
                    }
                }
                lemma_returning_block_runs_to_return(env.insert(symbol_id, v), rest);
            }
        },
        IrInstruction::Return { value } => {
            lemma_eval_not_missing_return(env, value);
        },
    }
}

/// Whether a run stopped on a symbol that had no value.
pub open spec fn reads_unbound(result: Result<i64, RuntimeError>) -> bool {
    match result {
        Err(RuntimeError::UndefinedSymbol(_)) => true,
        _ => false,
    }
}

proof fn lemma_eval_reads_bound(env: Map<SymbolId, i64>, defined: Set<SymbolId>, expr: TypedExpr)
    requires
        expr_scoped(defined, expr),
        forall|id: SymbolId| defined.contains(id) ==> env.contains_key(id),
    ensures
        !reads_unbound(eval_ir_spec(env, lower_expr_spec(expr))),
    decreases expr,
{
    if let TypedExpr::Binary { left, right, .. } = expr {
        lemma_eval_reads_bound(env, defined, *left);
        lemma_eval_reads_bound(env, defined, *right);
    }
}

proof fn lemma_run_reads_bound(env: Map<SymbolId, i64>, defined: Set<SymbolId>, statements: Seq<SpecTypedStatement>)
    requires
        branch_free(statements),
        block_scoped(defined, statements),
        forall|id: SymbolId| defined.contains(id) ==> env.contains_key(id),
    ensures
        !reads_unbound(run_ir_spec(env, statements.map_values(|s: SpecTypedStatement| lower_statement_spec(s))).0),
    decreases statements.len(),
{
    let lowered = statements.map_values(|s: SpecTypedStatement| lower_statement_spec(s));
    if statements.len() > 0 {
        let rest = statements.subrange(1, statements.len() as int);
        assert(lowered[0] == lower_statement_spec(statements[0]));
        assert(lowered.subrange(1, lowered.len() as int) =~= rest.map_values(
            |s: SpecTypedStatement| lower_statement_spec(s),
        ));
        assert(!(statements[0] is If));
        assert(statement_scoped(defined, statements[0]));
        assert(branch_free(rest)) by {
            assert forall|i: int| 0 <= i < rest.len() implies !(#[trigger] rest[i] is If) by {
                assert(rest[i] == statements[i + 1]);
            }
        }
        match statements[0] {
            SpecTypedStatement::Let { symbol, value } => {
                lemma_eval_reads_bound(env, defined, value);
                if let Ok(v) = eval_ir_spec(env, lower_expr_spec(value)) {
                    lemma_run_reads_bound(env.insert(symbol.spec_id(), v), defined.insert(symbol.spec_id()), rest);
                }
            },
            SpecTypedStatement::Assign { symbol, value } => {
                lemma_eval_reads_bound(env, defined, value);
                if let Ok(v) = eval_ir_spec(env, lower_expr_spec(value)) {
                    lemma_run_reads_bound(env.insert(symbol.spec_id(), v), defined.insert(symbol.spec_id()), rest);
                }
            },
            SpecTypedStatement::Return { value } => {
                lemma_eval_reads_bound(env, defined, value);
            },
            SpecTypedStatement::If { .. } => {},
        }
    }
}

/// A branch-free program the type checker accepts, lowered to the linear representation and run
/// with a value for every symbol of the scope the checker started from, never stops on a symbol
/// without a value.
pub proof fn lemma_checked_program_reads_bound_symbols(
    state: CheckState,
    statements: Seq<SpecStatement>,
    env: Map<SymbolId, i64>,
)
    requires
        check_spec(state, statements).0 is Ok,
        branch_free(check_spec(state, statements).0->Ok_0.0),
        forall|id: SymbolId| scope_ids(state.scope).contains(id) ==> env.contains_key(id),
    ensures
        !reads_unbound(
            run_ir_spec(
                env,
                check_spec(state, statements).0->Ok_0.0.map_values(
                    |s: SpecTypedStatement| lower_statement_spec(s),
                ),
            ).0,
        ),
{
    lemma_checked_program_is_scoped(state, statements);
    lemma_run_reads_bound(env, scope_ids(state.scope), check_spec(state, statements).0->Ok_0.0);
}

proof fn lemma_eval_outcome(env: Map<SymbolId, i64>, value: IrValue)
    ensures
        match eval_ir_spec(env, value) {
            Err(RuntimeError::UndefinedValue(_)) => false,
            Err(RuntimeError::MissingReturn) => false,
            _ => true,
        },
    decreases value,
{
    if let IrValue::Binary { left, right, .. } = value {
        lemma_eval_outcome(env, *left);
        lemma_eval_outcome(env, *right);
    }
}

proof fn lemma_run_no_undefined_value(env: Map<SymbolId, i64>, instructions: Seq<IrInstruction>)
    ensures
        !(run_ir_spec(env, instructions).0 matches Err(RuntimeError::UndefinedValue(_))),
    decreases instructions.len(),
{
    if instructions.len() > 0 {
        match instructions[0] {
            IrInstruction::Bind { symbol_id, value } => {
                lemma_eval_outcome(env, value);
                if let Ok(v) = eval_ir_spec(env, value) {
                    lemma_run_no_undefined_value(
                        env.insert(symbol_id, v),
                        instructions.subrange(1, instructions.len() as int),
                    );
                }
            },
            IrInstruction::Return { value } => {
                lemma_eval_outcome(env, value);
            },
        }
    }
}

/// A branch-free program the type checker accepts, lowered to the linear representation and run
/// with a value for every symbol of the scope the checker started from, ends in a returned
/// value, a division by zero or an arithmetic overflow, and in nothing else.
pub proof fn lemma_checked_linear_outcome(state: CheckState, statements: Seq<SpecStatement>, env: Map<SymbolId, i64>)
    requires
        check_spec(state, statements).0 is Ok,
        branch_free(check_spec(state, statements).0->Ok_0.0),
        forall|id: SymbolId| scope_ids(state.scope).contains(id) ==> env.contains_key(id),
    ensures
        ({
            let typed = check_spec(state, statements).0->Ok_0.0;
            let result = run_ir_spec(env, typed.map_values(|s: SpecTypedStatement| lower_statement_spec(s))).0;
            ||| result is Ok
            ||| result == Err::<i64, RuntimeError>(RuntimeError::DivisionByZero)
            ||| result == Err::<i64, RuntimeError>(RuntimeError::IntegerOverflow)
        }),
{
    let typed = check_spec(state, statements).0->Ok_0.0;
    let lowered = typed.map_values(|s: SpecTypedStatement| lower_statement_spec(s));
    lemma_checked_program_returns(state, statements);
    lemma_returning_block_runs_to_return(env, typed);
    lemma_checked_program_reads_bound_symbols(state, statements, env);
    lemma_run_no_undefined_value(env, lowered);
}

} // verus!
