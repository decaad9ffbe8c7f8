use std::collections::HashMap;
use vstd::prelude::*;

use crate::ast::{binary_value, fold_binary, BinaryOp};
use crate::cfg::{
    find_block, instructions_view, BlockId, ControlFlowGraph, Instruction, Operand, SpecBlock,
    SpecCfg, SpecInstruction, Terminator, ValueId,
};

verus! {

broadcast use vstd::std_specs::hash::group_hash_axioms;

/// Errors raised while running a control-flow graph.
#[derive(Debug, Clone, Copy, PartialEq, Eq, Structural)]
pub enum CfgRuntimeError {
    MissingBlock(BlockId),
    MissingValue(ValueId),
    MissingPhiInput,
    DivisionByZero,
    IntegerOverflow,
    MissingReturn,
    StepLimitExceeded,
}

/// The value of an operand under the computed values.
pub open spec fn resolve_spec(values: Map<ValueId, i64>, operand: Operand) -> Result<i64, CfgRuntimeError> {
    match operand {
        Operand::Constant(v) => Ok(v),
        Operand::Value(id) => if values.contains_key(id) {
            Ok(values[id])
        } else {
            Err(CfgRuntimeError::MissingValue(id))
        },
    }
}

/// The outcome of `left op right` at run time.
pub open spec fn binary_spec(op: BinaryOp, left: i64, right: i64) -> Result<i64, CfgRuntimeError> {
    if op is Divide && right == 0 {
        Err(CfgRuntimeError::DivisionByZero)
    } else {
        match binary_value(op, left, right) {
            Some(v) => Ok(v),
            None => Err(CfgRuntimeError::IntegerOverflow),
        }
    }
}

/// The operand of the first incoming edge from `predecessor`, from position `k` on.
pub open spec fn phi_input(incomings: Seq<(BlockId, Operand)>, predecessor: BlockId, k: int) -> Option<Operand>
    decreases incomings.len() - k,
{
    if k < 0 || k >= incomings.len() {
        None
    } else if incomings[k].0 == predecessor {
        Some(incomings[k].1)
    } else {
        phi_input(incomings, predecessor, k + 1)
    }
}

/// The values of the phis of a block from position `k` on, all read on entry from `predecessor`,
/// with their result ids, in order; or the first error.
pub open spec fn phi_results(
    instructions: Seq<SpecInstruction>,
    k: int,
    predecessor: Option<BlockId>,
    values: Map<ValueId, i64>,
) -> Result<Seq<(ValueId, i64)>, CfgRuntimeError>
    decreases instructions.len() - k,
{
    if k < 0 || k >= instructions.len() {
        Ok(Seq::empty())
    } else {
        match instructions[k] {
            SpecInstruction::Phi { result, incomings, .. } => match predecessor {
                None => Err(CfgRuntimeError::MissingPhiInput),
                Some(p) => match phi_input(incomings, p, 0) {
                    None => Err(CfgRuntimeError::MissingPhiInput),
                    Some(operand) => match resolve_spec(values, operand) {
                        Err(e) => Err(e),
                        Ok(v) => match phi_results(instructions, k + 1, predecessor, values) {
                            Err(e) => Err(e),
                            Ok(rest) => Ok(seq![(result, v)] + rest),
                        },
                    },
                },
            },
            _ => phi_results(instructions, k + 1, predecessor, values),
        }
    }
}

/// The values after recording the results in order.
pub open spec fn record(values: Map<ValueId, i64>, results: Seq<(ValueId, i64)>) -> Map<ValueId, i64>
    decreases results.len(),
{
    if results.len() == 0 {
        values
    } else {
        record(values, results.drop_last()).insert(results.last().0, results.last().1)
    }
}

/// The values after running the binary instructions of a block from position `k` on, or the
/// first error.
pub open spec fn run_instructions(
    instructions: Seq<SpecInstruction>,
    k: int,
    values: Map<ValueId, i64>,
) -> Result<Map<ValueId, i64>, CfgRuntimeError>
    decreases instructions.len() - k,
{
    if k < 0 || k >= instructions.len() {
        Ok(values)
    } else {
        match instructions[k] {
            SpecInstruction::Binary { result, op, left, right } => match resolve_spec(values, left) {
                Err(e) => Err(e),
                Ok(l) => match resolve_spec(values, right) {
                    Err(e) => Err(e),
                    Ok(r) => match binary_spec(op, l, r) {
                        Err(e) => Err(e),
                        Ok(v) => run_instructions(instructions, k + 1, values.insert(result, v)),
                    },
                },
            },
            _ => run_instructions(instructions, k + 1, values),
        }
    }
}

/// The values on leaving a block entered from `predecessor`: its phis first, all at once, then
/// its other instructions in order.
pub open spec fn block_values(
    block: SpecBlock,
    predecessor: Option<BlockId>,
    values: Map<ValueId, i64>,
) -> Result<Map<ValueId, i64>, CfgRuntimeError> {
    match phi_results(block.instructions, 0, predecessor, values) {
        Err(e) => Err(e),
        Ok(results) => run_instructions(block.instructions, 0, record(values, results)),
    }
}

/// Running the graph from block `current`, entered from `predecessor`, with at most `fuel`
/// blocks to go: the returned value or the error that stops it.
pub open spec fn run_spec(
    g: SpecCfg,
    fuel: nat,
    current: BlockId,
    predecessor: Option<BlockId>,
    values: Map<ValueId, i64>,
) -> Result<i64, CfgRuntimeError>
    decreases fuel,
{
    if fuel == 0 {
        Err(CfgRuntimeError::StepLimitExceeded)
    } else {
        match find_block(g.blocks, current) {
            None => Err(CfgRuntimeError::MissingBlock(current)),
            Some(i) => match block_values(g.blocks[i], predecessor, values) {
                Err(e) => Err(e),
                Ok(after) => match g.blocks[i].terminator {
                    None => Err(CfgRuntimeError::MissingReturn),
                    Some(Terminator::Return(value)) => resolve_spec(after, value),
                    Some(Terminator::Jump(target)) => run_spec(
                        g,
                        (fuel - 1) as nat,
                        target,
                        Some(current),
                        after,
                    ),
                    Some(Terminator::Branch { condition, then_block, else_block }) => match resolve_spec(
                        after,
                        condition,
                    ) {
                        Err(e) => Err(e),
                        Ok(c) => run_spec(
                            g,
                            (fuel - 1) as nat,
                            if c != 0 {
                                then_block
                            } else {
                                else_block
                            },
                            Some(current),
                            after,
                        ),
                    },
                },
            },
        }
    }
}

/// The number of blocks a run may enter before it is stopped.
pub open spec fn step_limit() -> nat {
    u64::MAX as nat
}

/// The outcome of running a graph from its entry with no values computed yet.
pub open spec fn execute_spec(g: SpecCfg) -> Result<i64, CfgRuntimeError> {
    run_spec(g, step_limit(), g.entry, None, Map::empty())
}

/// Runs control-flow graphs.
pub struct CfgInterpreter;

impl CfgInterpreter {
    /// Runs the graph from its entry block until a block returns: phis read their input for the
    /// edge taken, binary instructions compute values, and branches go to the then block on a
    /// non-zero condition. A run stops with `StepLimitExceeded` after `u64::MAX` blocks.
    pub fn execute(graph: &ControlFlowGraph) -> (result: Result<i64, CfgRuntimeError>)
        ensures
            result == execute_spec(graph@),
    {
        let ghost g = graph@;
        let mut values: HashMap<ValueId, i64> = HashMap::new();
        let mut current = graph.entry();
        let mut predecessor: Option<BlockId> = None;
        let mut steps: u64 = u64::MAX;
        loop
            invariant
                g == graph@,
                execute_spec(g) == run_spec(g, steps as nat, current, predecessor, values@),
            decreases steps,
        {
            if steps == 0 {
                return Err(CfgRuntimeError::StepLimitExceeded);
            }
            let block = match graph.block(current) {
                Some(block) => block,
                None => {
                    return Err(CfgRuntimeError::MissingBlock(current));
                },
            };
            let ghost i = find_block(g.blocks, current).unwrap();
            let instructions = block.instructions();
            let results = match phi_values(instructions, predecessor, &values) {
                Ok(results) => results,
                Err(e) => {
                    return Err(e);
                },
            };
            record_values(&mut values, &results);
            match run_block(instructions, &mut values) {
                Ok(()) => {},
                Err(e) => {
                    return Err(e);
                },
            }
            let next = match block.terminator() {
                None => {
                    return Err(CfgRuntimeError::MissingReturn);
                },
                Some(Terminator::Return(value)) => {
                    return resolve_operand(*value, &values);
                },
                Some(Terminator::Jump(target)) => *target,
                Some(Terminator::Branch { condition, then_block, else_block }) => {
                    let c = match resolve_operand(*condition, &values) {
                        Ok(c) => c,
                        Err(e) => {
                            return Err(e);
                        },
                    };
                    if c != 0 {
                        *then_block
                    } else {
                        *else_block
                    }
                },
            };
            predecessor = Some(current);
            current = next;
            steps = steps - 1;
        }
    }
}

/// The operand of the first incoming edge from `predecessor`.
fn find_phi_input(incomings: &Vec<(BlockId, Operand)>, predecessor: BlockId) -> (operand: Option<Operand>)
    ensures
        operand == phi_input(incomings@, predecessor, 0),
{
    let mut k: usize = 0;
    while k < incomings.len()
        invariant
            0 <= k <= incomings.len(),
            phi_input(incomings@, predecessor, 0) == phi_input(incomings@, predecessor, k as int),
        decreases incomings.len() - k,
    {
        if incomings[k].0 == predecessor {
            return Some(incomings[k].1);
        }
        k = k + 1;
    }
    None
}

/// Evaluates the phis of a block on entry from `predecessor`.
fn phi_values(
    instructions: &[Instruction],
    predecessor: Option<BlockId>,
    values: &HashMap<ValueId, i64>,
) -> (results: Result<Vec<(ValueId, i64)>, CfgRuntimeError>)
    ensures
        match results {
            Ok(r) => phi_results(instructions_view(instructions@), 0, predecessor, values@) == Ok::<
                Seq<(ValueId, i64)>,
                CfgRuntimeError,
            >(r@),
            Err(e) => phi_results(instructions_view(instructions@), 0, predecessor, values@) == Err::<
                Seq<(ValueId, i64)>,
                CfgRuntimeError,
            >(e),
        },
{
    let ghost view = instructions_view(instructions@);
    let mut results: Vec<(ValueId, i64)> = Vec::new();
    let mut k: usize = 0;
    while k < instructions.len()
        invariant
            view == instructions_view(instructions@),
            view.len() == instructions@.len(),
            0 <= k <= instructions.len(),
            phi_results(view, 0, predecessor, values@) == match phi_results(
                view,
                k as int,
                predecessor,
                values@,
            ) {
                Ok(rest) => Ok(results@ + rest),
                Err(e) => Err(e),
            },
        decreases instructions.len() - k,
    {
        let ghost before = results@;
        proof {
            assert(view[k as int] == instructions@[k as int]@);
        }
        match &instructions[k] {
            Instruction::Phi { result, incomings, .. } => {
                let p = match predecessor {
                    Some(p) => p,
                    None => {
                        return Err(CfgRuntimeError::MissingPhiInput);
                    },
                };
                let operand = match find_phi_input(incomings, p) {
                    Some(operand) => operand,
                    None => {
                        return Err(CfgRuntimeError::MissingPhiInput);
                    },
                };
                let v = match resolve_operand(operand, values) {
                    Ok(v) => v,
                    Err(e) => {
                        return Err(e);
                    },
                };
                results.push((*result, v));
                proof {
                    match phi_results(view, k + 1, predecessor, values@) {
                        Ok(rest) => {
                            assert(before + (seq![(*result, v)] + rest) =~= results@ + rest);
                        },
                        Err(_) => {},
                    }
                }
            },
            _ => {},
        }
        k = k + 1;
    }
    proof {
        assert(results@ + Seq::<(ValueId, i64)>::empty() =~= results@);
    }
    Ok(results)
}

/// Records the results in order.
fn record_values(values: &mut HashMap<ValueId, i64>, results: &Vec<(ValueId, i64)>)
    ensures
        final(values)@ == record(old(values)@, results@),
{
    let mut k: usize = 0;
    while k < results.len()
        invariant
            0 <= k <= results.len(),
            values@ == record(old(values)@, results@.subrange(0, k as int)),
        decreases results.len() - k,
    {
        proof {
            let next = results@.subrange(0, k + 1);
            assert(next.drop_last() =~= results@.subrange(0, k as int));
            assert(next.last() == results@[k as int]);
        }
        values.insert(results[k].0, results[k].1);
        k = k + 1;
    }
    proof {
        assert(results@.subrange(0, results@.len() as int) =~= results@);
    }
}

/// Runs the binary instructions of a block in order.
fn run_block(instructions: &[Instruction], values: &mut HashMap<ValueId, i64>) -> (outcome: Result<(), CfgRuntimeError>)
    ensures
        match outcome {
            Ok(()) => run_instructions(instructions_view(instructions@), 0, old(values)@) == Ok::<
                Map<ValueId, i64>,
                CfgRuntimeError,
            >(final(values)@),
            Err(e) => run_instructions(instructions_view(instructions@), 0, old(values)@) == Err::<
                Map<ValueId, i64>,
                CfgRuntimeError,
            >(e),
        },
{
    let ghost view = instructions_view(instructions@);
    let mut k: usize = 0;
    let mut failure: Option<CfgRuntimeError> = None;
    while k < instructions.len()
        invariant_except_break
            view == instructions_view(instructions@),
            view.len() == instructions@.len(),
            0 <= k <= instructions.len(),
            failure is None,
            run_instructions(view, 0, old(values)@) == run_instructions(view, k as int, values@),
        ensures
            match failure {
                Some(e) => run_instructions(view, 0, old(values)@) == Err::<
                    Map<ValueId, i64>,
                    CfgRuntimeError,
                >(e),
                None => run_instructions(view, 0, old(values)@) == Ok::<
                    Map<ValueId, i64>,
                    CfgRuntimeError,
                >(values@),
            },
        decreases instructions.len() - k,
    {
        proof {
            assert(view[k as int] == instructions@[k as int]@);
        }
        match &instructions[k] {
            Instruction::Binary { result, op, left, right } => {
                let computed = match resolve_operand(*left, values) {
                    Err(e) => Err(e),
                    Ok(l) => match resolve_operand(*right, values) {
                        Err(e) => Err(e),
                        Ok(r) => execute_binary(*op, l, r),
                    },
                };
                match computed {
                    Ok(v) => {
                        values.insert(*result, v);
                    },
                    Err(e) => {
                        failure = Some(e);
                        break;
                    },
                }
            },
            _ => {},
        }
        k = k + 1;
    }
    match failure {
        Some(e) => Err(e),
        None => Ok(()),
    }
}

/// The value of an operand, or `MissingValue` for a value not computed yet.
fn resolve_operand(operand: Operand, values: &HashMap<ValueId, i64>) -> (result: Result<i64, CfgRuntimeError>)
    ensures
        result == resolve_spec(values@, operand),
{
    match operand {
        Operand::Constant(v) => Ok(v),
        Operand::Value(id) => match values.get(&id) {
            Some(v) => Ok(*v),
            None => Err(CfgRuntimeError::MissingValue(id)),
        },
    }
}

/// Computes `left op right`, failing on a zero divisor or a result that does not fit.
fn execute_binary(op: BinaryOp, left: i64, right: i64) -> (result: Result<i64, CfgRuntimeError>)
    ensures
        result == binary_spec(op, left, right),
{
    if matches!(op, BinaryOp::Divide) && right == 0 {
        return Err(CfgRuntimeError::DivisionByZero);
    }
    match fold_binary(op, left, right) {
        Some(v) => Ok(v),
        None => Err(CfgRuntimeError::IntegerOverflow),
    }
}

} // verus!
