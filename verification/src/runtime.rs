use std::collections::HashMap;
use vstd::prelude::*;

use crate::ast::{binary_value, fold_binary, BinaryOp};
use crate::ir::{IrInstruction, IrProgram, IrValue};
use crate::ssa::{Operand, SsaInstruction, SsaProgram, ValueId};
use crate::types::SymbolId;

verus! {

broadcast use vstd::std_specs::hash::group_hash_axioms;

/// Errors raised while running a program.
#[derive(Debug, Clone, Copy, PartialEq, Eq, Structural)]
pub enum RuntimeError {
    UndefinedSymbol(SymbolId),
    UndefinedValue(ValueId),
    DivisionByZero,
    IntegerOverflow,
    MissingReturn,
}

/// The outcome of `left op right` at run time.
pub open spec fn run_binary(op: BinaryOp, left: i64, right: i64) -> Result<i64, RuntimeError> {
    if op is Divide && right == 0 {
        Err(RuntimeError::DivisionByZero)
    } else {
        match binary_value(op, left, right) {
            Some(v) => Ok(v),
            None => Err(RuntimeError::IntegerOverflow),
        }
    }
}

fn execute_binary(op: BinaryOp, left: i64, right: i64) -> (result: Result<i64, RuntimeError>)
    ensures
        result == run_binary(op, left, right),
{
    if matches!(op, BinaryOp::Divide) && right == 0 {
        return Err(RuntimeError::DivisionByZero);
    }
    match fold_binary(op, left, right) {
        Some(v) => Ok(v),
        None => Err(RuntimeError::IntegerOverflow),
    }
}

/// The value of an IR value tree under the symbol values `env`.
pub open spec fn eval_ir_spec(env: Map<SymbolId, i64>, value: IrValue) -> Result<i64, RuntimeError>
    decreases value,
{
    match value {
        IrValue::Constant { value, .. } => Ok(value),
        IrValue::Boolean { value, .. } => Ok(if value { 1i64 } else { 0i64 }),
        IrValue::Symbol { symbol_id, .. } => if env.contains_key(symbol_id) {
            Ok(env[symbol_id])
        } else {
            Err(RuntimeError::UndefinedSymbol(symbol_id))
        },
        IrValue::Binary { left, op, right, .. } => match eval_ir_spec(env, *left) {
            Err(e) => Err(e),
            Ok(l) => match eval_ir_spec(env, *right) {
                Err(e) => Err(e),
                Ok(r) => run_binary(op, l, r),
            },
        },
    }
}

/// Running IR instructions in order: the returned value or the first error, and the symbol
/// values at that point.
pub open spec fn run_ir_spec(env: Map<SymbolId, i64>, instructions: Seq<IrInstruction>) -> (
    Result<i64, RuntimeError>,
    Map<SymbolId, i64>,
)
    decreases instructions.len(),
{
    if instructions.len() == 0 {
        (Err(RuntimeError::MissingReturn), env)
    } else {
        match instructions[0] {
            IrInstruction::Bind { symbol_id, value } => match eval_ir_spec(env, value) {
                Err(e) => (Err(e), env),
                Ok(v) => run_ir_spec(
                    env.insert(symbol_id, v),
                    instructions.subrange(1, instructions.len() as int),
                ),
            },
            IrInstruction::Return { value } => (eval_ir_spec(env, value), env),
        }
    }
}

/// An interpreter for the linear representation; symbol values persist across runs.
pub struct Interpreter {
    values: HashMap<SymbolId, i64>,
}

impl Default for Interpreter {
    fn default() -> (interpreter: Self)
        ensures
            interpreter.spec_values() == Map::<SymbolId, i64>::empty(),
    {
        Self::new()
    }
}

impl Interpreter {
    /// The symbol values held so far.
    pub closed spec fn spec_values(self) -> Map<SymbolId, i64> {
        self.values@
    }

    pub fn new() -> (interpreter: Self)
        ensures
            interpreter.spec_values() == Map::<SymbolId, i64>::empty(),
    {
        Self { values: HashMap::new() }
    }

    pub fn execute(&mut self, program: &IrProgram) -> (result: Result<i64, RuntimeError>)
        ensures
            (result, final(self).spec_values()) == run_ir_spec(
                old(self).spec_values(),
                program.spec_instructions(),
            ),
    {
        let instructions = program.instructions();
        let ghost all = instructions@;
        let mut i: usize = 0;
        proof {
            assert(all.subrange(0, all.len() as int) =~= all);
        }
        let mut outcome: Option<Result<i64, RuntimeError>> = None;
        while i < instructions.len()
            invariant_except_break
                all == instructions@,
                0 <= i <= all.len(),
                outcome is None,
                run_ir_spec(old(self).spec_values(), all) == run_ir_spec(
                    self.values@,
                    all.subrange(i as int, all.len() as int),
                ),
            ensures
                match outcome {
                    Some(r) => run_ir_spec(old(self).spec_values(), all) == (r, self.values@),
                    None => run_ir_spec(old(self).spec_values(), all) == (
                        Err::<i64, RuntimeError>(RuntimeError::MissingReturn),
                        self.values@,
                    ),
                },
            decreases all.len() - i,
        {
            let ghost rest = all.subrange(i as int, all.len() as int);
            proof {
                assert(rest[0] == all[i as int]);
                assert(rest.subrange(1, rest.len() as int) =~= all.subrange(
                    i + 1,
                    all.len() as int,
                ));
            }
            match &instructions[i] {
                IrInstruction::Bind { symbol_id, value } => {
                    match self.eval(value) {
                        Ok(v) => {
                            self.values.insert(*symbol_id, v);
                        },
                        Err(e) => {
                            outcome = Some(Err(e));
                            break;
                        },
                    }
                },
                IrInstruction::Return { value } => {
                    outcome = Some(self.eval(value));
                    break;
                },
            }
            i = i + 1;
            proof {
                if i == all.len() {
                    assert(all.subrange(i as int, all.len() as int) =~= Seq::<IrInstruction>::empty());
                }
            }
        }
        match outcome {
            Some(r) => r,
            None => Err(RuntimeError::MissingReturn),
        }
    }

    fn eval(&self, value: &IrValue) -> (result: Result<i64, RuntimeError>)
        ensures
            result == eval_ir_spec(self.values@, *value),
        decreases value,
    {
        match value {
            IrValue::Constant { value, .. } => Ok(*value),
            IrValue::Boolean { value, .. } => Ok(if *value { 1 } else { 0 }),
            IrValue::Symbol { symbol_id, .. } => match self.values.get(symbol_id) {
                Some(v) => Ok(*v),
                None => Err(RuntimeError::UndefinedSymbol(*symbol_id)),
            },
            IrValue::Binary { left, op, right, .. } => {
                let left = self.eval(left)?;
                let right = self.eval(right)?;
                execute_binary(*op, left, right)
            },
        }
    }
}

/// The value of an SSA operand under the values `env`.
pub open spec fn operand_value(env: Map<ValueId, i64>, operand: Operand) -> Result<i64, RuntimeError> {
    match operand {
        Operand::Constant(v) => Ok(v),
        Operand::Value(id) => if env.contains_key(id) {
            Ok(env[id])
        } else {
            Err(RuntimeError::UndefinedValue(id))
        },
    }
}

/// Running SSA instructions in order: the returned value or the first error, and the values
/// defined up to that point.
pub open spec fn run_ssa_spec(env: Map<ValueId, i64>, instructions: Seq<SsaInstruction>) -> (
    Result<i64, RuntimeError>,
    Map<ValueId, i64>,
)
    decreases instructions.len(),
{
    if instructions.len() == 0 {
        (Err(RuntimeError::MissingReturn), env)
    } else {
        let rest = instructions.subrange(1, instructions.len() as int);
        match instructions[0] {
            SsaInstruction::Binary { result, op, left, right } => match operand_value(env, left) {
                Err(e) => (Err(e), env),
                Ok(l) => match operand_value(env, right) {
                    Err(e) => (Err(e), env),
                    Ok(r) => match run_binary(op, l, r) {
                        Err(e) => (Err(e), env),
                        Ok(v) => run_ssa_spec(env.insert(result, v), rest),
                    },
                },
            },
            SsaInstruction::Copy { result, source } => match operand_value(env, source) {
                Err(e) => (Err(e), env),
                Ok(v) => run_ssa_spec(env.insert(result, v), rest),
            },
            SsaInstruction::Return { value } => (operand_value(env, value), env),
        }
    }
}

/// An interpreter for SSA programs; values persist across runs.
pub struct SsaInterpreter {
    values: HashMap<ValueId, i64>,
}

impl SsaInterpreter {
    pub closed spec fn spec_values(self) -> Map<ValueId, i64> {
        self.values@
    }

    pub fn new() -> (interpreter: Self)
        ensures
            interpreter.spec_values() == Map::<ValueId, i64>::empty(),
    {
        Self { values: HashMap::new() }
    }

    pub fn execute(&mut self, program: &SsaProgram) -> (result: Result<i64, RuntimeError>)
        ensures
            (result, final(self).spec_values()) == run_ssa_spec(
                old(self).spec_values(),
                program.spec_instructions(),
            ),
    {
        let instructions = program.instructions();
        let ghost all = instructions@;
        let mut i: usize = 0;
        proof {
            assert(all.subrange(0, all.len() as int) =~= all);
            if all.len() == 0 {
                assert(all.subrange(0, 0) =~= Seq::<SsaInstruction>::empty());
            }
        }
        let mut outcome: Option<Result<i64, RuntimeError>> = None;
        while i < instructions.len()
            invariant_except_break
                all == instructions@,
                0 <= i <= all.len(),
                outcome is None,
                run_ssa_spec(old(self).spec_values(), all) == run_ssa_spec(
                    self.values@,
                    all.subrange(i as int, all.len() as int),
                ),
                i == all.len() ==> all.subrange(i as int, all.len() as int) =~= Seq::<SsaInstruction>::empty(),
            ensures
                match outcome {
                    Some(r) => run_ssa_spec(old(self).spec_values(), all) == (r, self.values@),
                    None => run_ssa_spec(old(self).spec_values(), all) == (
                        Err::<i64, RuntimeError>(RuntimeError::MissingReturn),
                        self.values@,
                    ),
                },
            decreases all.len() - i,
        {
            let ghost rest = all.subrange(i as int, all.len() as int);
            proof {
                assert(rest[0] == all[i as int]);
                assert(rest.subrange(1, rest.len() as int) =~= all.subrange(
                    i + 1,
                    all.len() as int,
                ));
            }
            match instructions[i] {
                SsaInstruction::Binary { result, op, left, right } => {
                    let computed = match self.operand(left) {
                        Err(e) => Err(e),
                        Ok(l) => match self.operand(right) {
                            Err(e) => Err(e),
                            Ok(r) => execute_binary(op, l, r),
                        },
                    };
                    match computed {
                        Ok(v) => {
                            self.values.insert(result, v);
                        },
                        Err(e) => {
                            outcome = Some(Err(e));
                            break;
                        },
                    }
                },
                SsaInstruction::Copy { result, source } => {
                    match self.operand(source) {
                        Ok(v) => {
                            self.values.insert(result, v);
                        },
                        Err(e) => {
                            outcome = Some(Err(e));
                            break;
                        },
                    }
                },
                SsaInstruction::Return { value } => {
                    outcome = Some(self.operand(value));
                    break;
                },
            }
            i = i + 1;
            proof {
                if i == all.len() {
                    assert(all.subrange(i as int, all.len() as int) =~= Seq::<SsaInstruction>::empty());
                }
            }
        }
        match outcome {
            Some(r) => r,
            None => Err(RuntimeError::MissingReturn),
        }
    }

    fn operand(&self, operand: Operand) -> (result: Result<i64, RuntimeError>)
        ensures
            result == operand_value(self.values@, operand),
    {
        match operand {
            Operand::Constant(v) => Ok(v),
            Operand::Value(id) => match self.values.get(&id) {
                Some(v) => Ok(*v),
                None => Err(RuntimeError::UndefinedValue(id)),
            },
        }
    }
}

} // verus!
