use std::collections::{HashMap, HashSet};
use vstd::prelude::*;

use crate::ast::{binary_value, fold_binary, BinaryOp};
use crate::cfg::{
    blocks_view, id_universe, instructions_view, lemma_all_targets, terminator_targets, BasicBlock,
    BlockId, ControlFlowGraph, Instruction, Operand, SpecBlock, SpecCfg, SpecInstruction,
    Terminator, ValueId,
};

verus! {

broadcast use vstd::std_specs::hash::group_hash_axioms;

/// What constant propagation knows of a value: nothing yet, one constant, or more than one.
#[derive(Debug, Clone, Copy, PartialEq, Eq, Structural)]
pub enum Lattice {
    Unknown,
    Constant(i64),
    Overdefined,
}

/// The least lattice element above both.
pub open spec fn join(left: Lattice, right: Lattice) -> Lattice {
    match (left, right) {
        (Lattice::Unknown, value) => value,
        (value, Lattice::Unknown) => value,
        (Lattice::Constant(a), Lattice::Constant(b)) => if a == b {
            Lattice::Constant(a)
        } else {
            Lattice::Overdefined
        },
        _ => Lattice::Overdefined,
    }
}

/// The lattice order: unknown below everything, overdefined above everything.
pub open spec fn lattice_le(a: Lattice, b: Lattice) -> bool {
    a is Unknown || a == b || b is Overdefined
}

/// What is known of an operand: a constant operand is that constant; a value is what the
/// analysis holds for it (unknown when it holds nothing).
pub open spec fn lattice_of_spec(operand: Operand, values: Map<ValueId, Lattice>) -> Lattice {
    match operand {
        Operand::Constant(v) => Lattice::Constant(v),
        Operand::Value(id) => if values.contains_key(id) {
            values[id]
        } else {
            Lattice::Unknown
        },
    }
}

/// What is known of `left op right`: the folded constant when both are constants (overdefined
/// when folding fails), overdefined when either is, unknown otherwise.
pub open spec fn evaluate_binary_spec(op: BinaryOp, left: Lattice, right: Lattice) -> Lattice {
    match (left, right) {
        (Lattice::Constant(l), Lattice::Constant(r)) => match binary_value(op, l, r) {
            Some(v) => Lattice::Constant(v),
            None => Lattice::Overdefined,
        },
        (Lattice::Overdefined, _) => Lattice::Overdefined,
        (_, Lattice::Overdefined) => Lattice::Overdefined,
        _ => Lattice::Unknown,
    }
}

/// The values with `id` raised to its join with `next`.
pub open spec fn merge_value_spec(values: Map<ValueId, Lattice>, id: ValueId, next: Lattice) -> Map<
    ValueId,
    Lattice,
> {
    values.insert(id, join(lattice_of_spec(Operand::Value(id), values), next))
}

/// The join of the first `n` incoming operands of a phi whose edges come from executable blocks.
pub open spec fn phi_lattice(
    incomings: Seq<(BlockId, Operand)>,
    n: int,
    values: Map<ValueId, Lattice>,
    executable: Set<BlockId>,
) -> Lattice
    decreases n,
{
    if n <= 0 || n > incomings.len() {
        Lattice::Unknown
    } else {
        let before = phi_lattice(incomings, n - 1, values, executable);
        if executable.contains(incomings[n - 1].0) {
            join(before, lattice_of_spec(incomings[n - 1].1, values))
        } else {
            before
        }
    }
}

/// The values after evaluating one instruction.
pub open spec fn evaluate_instruction_spec(
    instruction: SpecInstruction,
    values: Map<ValueId, Lattice>,
    executable: Set<BlockId>,
) -> Map<ValueId, Lattice> {
    match instruction {
        SpecInstruction::Binary { result, op, left, right } => merge_value_spec(
            values,
            result,
            evaluate_binary_spec(op, lattice_of_spec(left, values), lattice_of_spec(right, values)),
        ),
        SpecInstruction::Phi { result, incomings, .. } => merge_value_spec(
            values,
            result,
            phi_lattice(incomings, incomings.len() as int, values, executable),
        ),
        SpecInstruction::Bind { .. } => values,
    }
}

/// The values after evaluating the first `n` instructions in order.
pub open spec fn evaluate_instructions(
    instructions: Seq<SpecInstruction>,
    n: int,
    values: Map<ValueId, Lattice>,
    executable: Set<BlockId>,
) -> Map<ValueId, Lattice>
    decreases n,
{
    if n <= 0 || n > instructions.len() {
        values
    } else {
        evaluate_instruction_spec(
            instructions[n - 1],
            evaluate_instructions(instructions, n - 1, values, executable),
            executable,
        )
    }
}

/// The executable blocks after a block with this terminator was found executable.
pub open spec fn mark_successors_spec(
    terminator: Option<Terminator>,
    values: Map<ValueId, Lattice>,
    executable: Set<BlockId>,
) -> Set<BlockId> {
    match terminator {
        Some(Terminator::Jump(target)) => executable.insert(target),
        Some(Terminator::Branch { condition, then_block, else_block }) => match lattice_of_spec(
            condition,
            values,
        ) {
            Lattice::Constant(v) => executable.insert(
                if v != 0 {
                    then_block
                } else {
                    else_block
                },
            ),
            Lattice::Overdefined => executable.insert(then_block).insert(else_block),
            Lattice::Unknown => executable,
        },
        _ => executable,
    }
}

/// One block of an analysis pass: skipped unless executable; otherwise its instructions are
/// evaluated in order and its successors marked.
pub open spec fn analyze_block(
    block: SpecBlock,
    values: Map<ValueId, Lattice>,
    executable: Set<BlockId>,
) -> (Map<ValueId, Lattice>, Set<BlockId>) {
    if executable.contains(block.id) {
        let after = evaluate_instructions(
            block.instructions,
            block.instructions.len() as int,
            values,
            executable,
        );
        (after, mark_successors_spec(block.terminator, after, executable))
    } else {
        (values, executable)
    }
}

/// The first `n` blocks of an analysis pass, in block order.
pub open spec fn analysis_pass_from(
    blocks: Seq<SpecBlock>,
    n: int,
    values: Map<ValueId, Lattice>,
    executable: Set<BlockId>,
) -> (Map<ValueId, Lattice>, Set<BlockId>)
    decreases n,
{
    if n <= 0 || n > blocks.len() {
        (values, executable)
    } else {
        let (v, e) = analysis_pass_from(blocks, n - 1, values, executable);
        analyze_block(blocks[n - 1], v, e)
    }
}

/// One pass of the analysis over all blocks.
pub open spec fn analysis_pass(
    g: SpecCfg,
    state: (Map<ValueId, Lattice>, Set<BlockId>),
) -> (Map<ValueId, Lattice>, Set<BlockId>) {
    analysis_pass_from(g.blocks, g.blocks.len() as int, state.0, state.1)
}

/// The analysis state after `n` passes, from nothing known and only the entry executable.
pub open spec fn analysis_iterate(g: SpecCfg, n: nat) -> (Map<ValueId, Lattice>, Set<BlockId>)
    decreases n,
{
    if n == 0 {
        (Map::empty(), set![g.entry])
    } else {
        analysis_pass(g, analysis_iterate(g, (n - 1) as nat))
    }
}

/// Whether a pass leaves the state unchanged.
pub open spec fn is_fixpoint(g: SpecCfg, state: (Map<ValueId, Lattice>, Set<BlockId>)) -> bool {
    analysis_pass(g, state) == state
}

/// The result of the analysis: the first state that a pass leaves unchanged.
pub open spec fn analysis_spec(g: SpecCfg) -> (Map<ValueId, Lattice>, Set<BlockId>) {
    analysis_iterate(g, choose|n: nat| is_fixpoint(g, #[trigger] analysis_iterate(g, n)))
}

/// Once a pass changes nothing, later passes change nothing either.
pub proof fn lemma_iterate_stable(g: SpecCfg, n: nat, m: nat)
    requires
        is_fixpoint(g, analysis_iterate(g, n)),
        n <= m,
    ensures
        analysis_iterate(g, m) == analysis_iterate(g, n),
    decreases m - n,
{
    if n < m {
        lemma_iterate_stable(g, n, (m - 1) as nat);
    }
}

/// The analysis result is the state of any iteration that a pass leaves unchanged.
pub proof fn lemma_analysis_spec(g: SpecCfg, n: nat)
    requires
        is_fixpoint(g, analysis_iterate(g, n)),
    ensures
        analysis_spec(g) == analysis_iterate(g, n),
{
    let k = choose|k: nat| is_fixpoint(g, #[trigger] analysis_iterate(g, k));
    if k <= n {
        lemma_iterate_stable(g, k, n);
    } else {
        lemma_iterate_stable(g, n, k);
    }
}

/// The id a Binary or Phi instruction computes (0 for a Bind).
pub open spec fn result_key(instruction: SpecInstruction) -> ValueId {
    match instruction {
        SpecInstruction::Binary { result, .. } => result,
        SpecInstruction::Phi { result, .. } => result,
        SpecInstruction::Bind { .. } => 0,
    }
}

/// The ids the instructions of the blocks compute, in block order.
pub open spec fn all_results(blocks: Seq<SpecBlock>) -> Seq<ValueId>
    decreases blocks.len(),
{
    if blocks.len() == 0 {
        Seq::empty()
    } else {
        all_results(blocks.drop_last()) + blocks.last().instructions.map_values(
            |i: SpecInstruction| result_key(i),
        )
    }
}

/// Every id the analysis can give a lattice value to.
pub open spec fn result_universe(g: SpecCfg) -> Set<ValueId> {
    all_results(g.blocks).to_set()
}

pub(crate) proof fn lemma_all_results(blocks: Seq<SpecBlock>, b: int, i: int)
    requires
        0 <= b < blocks.len(),
        0 <= i < blocks[b].instructions.len(),
    ensures
        all_results(blocks).contains(result_key(blocks[b].instructions[i])),
    decreases blocks.len(),
{
    let init = blocks.drop_last();
    let tail = blocks.last().instructions.map_values(|x: SpecInstruction| result_key(x));
    if b == blocks.len() - 1 {
        assert((all_results(init) + tail)[all_results(init).len() + i] == result_key(
            blocks[b].instructions[i],
        ));
    } else {
        assert(init[b] == blocks[b]);
        lemma_all_results(init, b, i);
        let k = choose|k: int|
            0 <= k < all_results(init).len() && all_results(init)[k] == result_key(
                blocks[b].instructions[i],
            );
        assert((all_results(init) + tail)[k] == all_results(init)[k]);
    }
}

/// Every value is at least as defined in `b` as in `a`.
pub open spec fn map_le(a: Map<ValueId, Lattice>, b: Map<ValueId, Lattice>) -> bool {
    forall|k: ValueId|
        #[trigger] a.contains_key(k) ==> b.contains_key(k) && lattice_le(a[k], b[k])
}

/// The ids with a known lattice value.
pub open spec fn known_keys(values: Map<ValueId, Lattice>) -> Set<ValueId> {
    Set::new(|k: ValueId| values.contains_key(k) && !(values[k] is Unknown))
}

/// The ids found overdefined.
pub open spec fn overdefined_keys(values: Map<ValueId, Lattice>) -> Set<ValueId> {
    Set::new(|k: ValueId| values.contains_key(k) && values[k] is Overdefined)
}

/// How far the analysis has got: it only grows.
pub open spec fn progress(state: (Map<ValueId, Lattice>, Set<BlockId>)) -> nat {
    state.0.dom().len() + known_keys(state.0).len() + overdefined_keys(state.0).len()
        + state.1.len()
}

/// The state stays within the ids the graph names.
pub open spec fn within(g: SpecCfg, state: (Map<ValueId, Lattice>, Set<BlockId>)) -> bool {
    state.0.dom().subset_of(result_universe(g)) && state.1.subset_of(id_universe(g))
}

/// The largest progress a state within the graph can have.
pub open spec fn progress_bound(g: SpecCfg) -> nat {
    3 * result_universe(g).len() + id_universe(g).len()
}

proof fn lemma_strict_subset_len<A>(a: Set<A>, b: Set<A>, x: A)
    requires
        b.finite(),
        a.subset_of(b),
        b.contains(x),
        !a.contains(x),
    ensures
        a.len() < b.len(),
        a.finite(),
{
    vstd::set_lib::lemma_len_subset(a, b.remove(x));
}

/// Within the graph, progress is bounded, grows with the order, and grows strictly with change.
pub proof fn lemma_progress(
    g: SpecCfg,
    a: (Map<ValueId, Lattice>, Set<BlockId>),
    b: (Map<ValueId, Lattice>, Set<BlockId>),
)
    requires
        within(g, a),
        within(g, b),
        map_le(a.0, b.0),
        a.1.subset_of(b.1),
    ensures
        progress(a) <= progress(b),
        a != b ==> progress(a) < progress(b),
        progress(b) <= progress_bound(g),
{
    let r = result_universe(g);
    let u = id_universe(g);
    vstd::set_lib::lemma_len_subset(a.0.dom(), b.0.dom());
    vstd::set_lib::lemma_len_subset(b.0.dom(), r);
    vstd::set_lib::lemma_len_subset(known_keys(b.0), r);
    vstd::set_lib::lemma_len_subset(known_keys(a.0), known_keys(b.0));
    vstd::set_lib::lemma_len_subset(overdefined_keys(b.0), r);
    vstd::set_lib::lemma_len_subset(overdefined_keys(a.0), overdefined_keys(b.0));
    vstd::set_lib::lemma_len_subset(a.1, b.1);
    vstd::set_lib::lemma_len_subset(b.1, u);
    if a != b {
        if a.1 != b.1 {
            let x = choose|x: BlockId| b.1.contains(x) && !a.1.contains(x);
            assert(!(a.1 =~= b.1));
            lemma_strict_subset_len(a.1, b.1, x);
        } else if a.0.dom() != b.0.dom() {
            assert(!(a.0.dom() =~= b.0.dom()));
            let x = choose|x: ValueId| b.0.dom().contains(x) && !a.0.dom().contains(x);
            lemma_strict_subset_len(a.0.dom(), b.0.dom(), x);
        } else {
            assert(!(a.0 =~= b.0));
            let x = choose|x: ValueId| a.0.contains_key(x) && a.0[x] != b.0[x];
            if a.0[x] is Unknown {
                lemma_strict_subset_len(known_keys(a.0), known_keys(b.0), x);
            } else {
                lemma_strict_subset_len(overdefined_keys(a.0), overdefined_keys(b.0), x);
            }
        }
    }
}

pub(crate) proof fn lemma_join_le(a: Lattice, b: Lattice)
    ensures
        lattice_le(a, join(a, b)),
        lattice_le(b, join(a, b)),
{
}

pub(crate) proof fn lemma_merge_value_le(values: Map<ValueId, Lattice>, id: ValueId, next: Lattice)
    ensures
        map_le(values, merge_value_spec(values, id, next)),
{
    lemma_join_le(lattice_of_spec(Operand::Value(id), values), next);
}

/// What is known of an operand.
fn lattice_of(operand: Operand, values: &HashMap<ValueId, Lattice>) -> (lattice: Lattice)
    ensures
        lattice == lattice_of_spec(operand, values@),
{
    match operand {
        Operand::Constant(value) => Lattice::Constant(value),
        Operand::Value(id) => match values.get(&id) {
            Some(l) => *l,
            None => Lattice::Unknown,
        },
    }
}

/// The join of two lattice values.
fn merge_lattice(left: Lattice, right: Lattice) -> (joined: Lattice)
    ensures
        joined == join(left, right),
{
    match (left, right) {
        (Lattice::Unknown, value) => value,
        (value, Lattice::Unknown) => value,
        (Lattice::Constant(a), Lattice::Constant(b)) => if a == b {
            Lattice::Constant(a)
        } else {
            Lattice::Overdefined
        },
        _ => Lattice::Overdefined,
    }
}

/// What is known of `left op right`.
fn evaluate_binary(op: BinaryOp, left: Lattice, right: Lattice) -> (lattice: Lattice)
    ensures
        lattice == evaluate_binary_spec(op, left, right),
{
    match (left, right) {
        (Lattice::Constant(l), Lattice::Constant(r)) => match fold_binary(op, l, r) {
            Some(v) => Lattice::Constant(v),
            None => Lattice::Overdefined,
        },
        (Lattice::Overdefined, _) => Lattice::Overdefined,
        (_, Lattice::Overdefined) => Lattice::Overdefined,
        _ => Lattice::Unknown,
    }
}

/// Raises `id` to its join with `next`; tells whether that changed anything.
fn merge_value(values: &mut HashMap<ValueId, Lattice>, id: ValueId, next: Lattice) -> (changed: bool)
    ensures
        final(values)@ == merge_value_spec(old(values)@, id, next),
        changed == (final(values)@ != old(values)@),
{
    let current = lattice_of(Operand::Value(id), values);
    let merged = merge_lattice(current, next);
    let changed = match values.get(&id) {
        Some(existing) => *existing != merged,
        None => true,
    };
    values.insert(id, merged);
    proof {
        if !changed {
            assert(values@ =~= old(values)@);
        } else if old(values)@.contains_key(id) {
            assert(values@[id] != old(values)@[id]);
        } else {
            assert(!old(values)@.contains_key(id) && values@.contains_key(id));
        }
    }
    changed
}

/// Evaluates one instruction against what is known; tells whether that changed anything.
fn evaluate_instruction(
    instruction: &Instruction,
    values: &mut HashMap<ValueId, Lattice>,
    executable: &HashSet<BlockId>,
) -> (changed: bool)
    ensures
        final(values)@ == evaluate_instruction_spec(instruction@, old(values)@, executable@),
        changed == (final(values)@ != old(values)@),
{
    match instruction {
        Instruction::Binary { result, op, left, right } => {
            let l = lattice_of(*left, values);
            let r = lattice_of(*right, values);
            let next = evaluate_binary(*op, l, r);
            merge_value(values, *result, next)
        },
        Instruction::Phi { result, incomings, .. } => {
            let mut value = Lattice::Unknown;
            let mut k: usize = 0;
            while k < incomings.len()
                invariant
                    0 <= k <= incomings.len(),
                    value == phi_lattice(incomings@, k as int, values@, executable@),
                decreases incomings.len() - k,
            {
                let (predecessor, operand) = incomings[k];
                if executable.contains(&predecessor) {
                    value = merge_lattice(value, lattice_of(operand, values));
                }
                k = k + 1;
            }
            merge_value(values, *result, value)
        },
        Instruction::Bind { .. } => false,
    }
}

/// Marks the blocks a terminator may pass control to, as far as what is known allows; tells
/// whether that changed anything.
fn mark_successors(
    terminator: Option<&Terminator>,
    values: &HashMap<ValueId, Lattice>,
    executable: &mut HashSet<BlockId>,
) -> (changed: bool)
    ensures
        final(executable)@ == mark_successors_spec(
            match terminator {
                Some(t) => Some(*t),
                None => None,
            },
            values@,
            old(executable)@,
        ),
        changed == (final(executable)@ != old(executable)@),
{
    match terminator {
        Some(Terminator::Jump(target)) => mark(executable, *target),
        Some(Terminator::Branch { condition, then_block, else_block }) => match lattice_of(
            *condition,
            values,
        ) {
            Lattice::Constant(value) => mark(
                executable,
                if value != 0 {
                    *then_block
                } else {
                    *else_block
                },
            ),
            Lattice::Overdefined => {
                let first = mark(executable, *then_block);
                let second = mark(executable, *else_block);
                proof {
                    if !first && !second {
                        assert(executable@ =~= old(executable)@);
                    } else if first {
                        assert(executable@.contains(*then_block));
                        assert(!old(executable)@.contains(*then_block));
                    } else {
                        assert(executable@.contains(*else_block));
                        assert(!old(executable)@.contains(*else_block));
                    }
                }
                first || second
            },
            Lattice::Unknown => false,
        },
        _ => false,
    }
}

/// Adds a block to the executable ones; tells whether it was new.
fn mark(executable: &mut HashSet<BlockId>, block: BlockId) -> (changed: bool)
    ensures
        final(executable)@ == old(executable)@.insert(block),
        changed == (final(executable)@ != old(executable)@),
        changed == !old(executable)@.contains(block),
{
    let fresh = !executable.contains(&block);
    executable.insert(block);
    proof {
        if !fresh {
            assert(executable@ =~= old(executable)@);
        } else {
            assert(executable@.contains(block) && !old(executable)@.contains(block));
        }
    }
    fresh
}


pub(crate) proof fn lemma_target_in_universe(g: SpecCfg, b: int, x: BlockId)
    requires
        0 <= b < g.blocks.len(),
        terminator_targets(g.blocks[b].terminator).contains(x),
    ensures
        id_universe(g).contains(x),
{
    lemma_all_targets(g.blocks, b, x);
    let all = seq![g.entry] + crate::cfg::all_targets(g.blocks);
    let k = choose|k: int|
        0 <= k < crate::cfg::all_targets(g.blocks).len() && crate::cfg::all_targets(g.blocks)[k] == x;
    assert(all[k + 1] == x);
}

/// One analysis pass over the blocks in order; tells whether it changed anything.
fn analysis_pass_exec(
    graph: &ControlFlowGraph,
    values: &mut HashMap<ValueId, Lattice>,
    executable: &mut HashSet<BlockId>,
) -> (changed: bool)
    requires
        within(graph@, (old(values)@, old(executable)@)),
    ensures
        (final(values)@, final(executable)@) == analysis_pass(graph@, (old(values)@, old(executable)@)),
        within(graph@, (final(values)@, final(executable)@)),
        map_le(old(values)@, final(values)@),
        old(executable)@.subset_of(final(executable)@),
        changed == ((final(values)@, final(executable)@) != (old(values)@, old(executable)@)),
{
    let ghost g = graph@;
    let ghost start = (values@, executable@);
    let blocks = graph.blocks();
    let mut changed = false;
    let mut b: usize = 0;
    while b < blocks.len()
        invariant
            g == graph@,
            blocks_view(blocks@) == g.blocks,
            g.blocks.len() == blocks@.len(),
            0 <= b <= blocks.len(),
            (values@, executable@) == analysis_pass_from(g.blocks, b as int, start.0, start.1),
            within(g, start),
            within(g, (values@, executable@)),
            map_le(start.0, values@),
            start.1.subset_of(executable@),
            changed ==> progress(start) < progress((values@, executable@)),
            !changed ==> (values@, executable@) == start,
        decreases blocks.len() - b,
    {
        let block = &blocks[b];
        proof {
            assert(g.blocks[b as int] == block@);
        }
        if executable.contains(&block.id()) {
            let instructions = block.instructions();
            let ghost entry_values = values@;
            let mut i: usize = 0;
            while i < instructions.len()
                invariant
                    g == graph@,
                    blocks_view(blocks@) == g.blocks,
                    0 <= b < blocks@.len(),
                    g.blocks[b as int] == block@,
                    instructions_view(instructions@) == block@.instructions,
                    0 <= i <= instructions.len(),
                    values@ == evaluate_instructions(block@.instructions, i as int, entry_values, executable@),
                    within(g, start),
                    within(g, (values@, executable@)),
                    map_le(start.0, values@),
                    start.1.subset_of(executable@),
                    changed ==> progress(start) < progress((values@, executable@)),
                    !changed ==> (values@, executable@) == start,
                decreases instructions.len() - i,
            {
                let ghost before = values@;
                proof {
                    assert(block@.instructions[i as int] == instructions@[i as int]@);
                    lemma_all_results(g.blocks, b as int, i as int);
                }
                let step = evaluate_instruction(&instructions[i], values, executable);
                proof {
                    let instruction = instructions@[i as int]@;
                    match instruction {
                        SpecInstruction::Binary { result, op, left, right } => {
                            lemma_merge_value_le(
                                before,
                                result,
                                evaluate_binary_spec(op, lattice_of_spec(left, before), lattice_of_spec(right, before)),
                            );
                        },
                        SpecInstruction::Phi { result, incomings, .. } => {
                            lemma_merge_value_le(
                                before,
                                result,
                                phi_lattice(incomings, incomings.len() as int, before, executable@),
                            );
                        },
                        _ => {},
                    }
                    assert(values@.dom().subset_of(result_universe(g)));
                    lemma_progress(g, (before, executable@), (values@, executable@));
                    lemma_progress(g, start, (before, executable@));
                    if step {
                        assert((before, executable@) != (values@, executable@));
                    }
                }
                changed = changed || step;
                i = i + 1;
            }
            let ghost before_marks = executable@;
            let step = mark_successors(block.terminator(), values, executable);
            proof {
                assert forall|x: BlockId| #[trigger] executable@.contains(x) && !before_marks.contains(x) implies id_universe(g).contains(x) by {
                    match block@.terminator {
                        Some(Terminator::Jump(t)) => {
                            assert(terminator_targets(block@.terminator)[0] == t);
                            lemma_target_in_universe(g, b as int, t);
                        },
                        Some(Terminator::Branch { then_block, else_block, .. }) => {
                            assert(terminator_targets(block@.terminator)[0] == then_block);
                            assert(terminator_targets(block@.terminator)[1] == else_block);
                            lemma_target_in_universe(g, b as int, then_block);
                            lemma_target_in_universe(g, b as int, else_block);
                        },
                        _ => {},
                    }
                }
                lemma_progress(g, (values@, before_marks), (values@, executable@));
                lemma_progress(g, start, (values@, before_marks));
                if step {
                    assert((values@, before_marks) != (values@, executable@));
                }
            }
            changed = changed || step;
        }
        b = b + 1;
    }
    proof {
        lemma_progress(g, start, (values@, executable@));
    }
    changed
}

/// Sparse conditional constant propagation: passes over the blocks until one changes nothing.
fn analyze(graph: &ControlFlowGraph) -> (result: (HashMap<ValueId, Lattice>, HashSet<BlockId>))
    ensures
        (result.0@, result.1@) == analysis_spec(graph@),
{
    let ghost g = graph@;
    let mut values: HashMap<ValueId, Lattice> = HashMap::new();
    let mut executable: HashSet<BlockId> = HashSet::new();
    executable.insert(graph.entry());
    let ghost mut n: nat = 0;
    proof {
        assert(values@ =~= Map::<ValueId, Lattice>::empty());
        assert(executable@ =~= set![g.entry]);
        assert((seq![g.entry] + crate::cfg::all_targets(g.blocks))[0] == g.entry);
        lemma_progress(g, (values@, executable@), (values@, executable@));
    }
    loop
        invariant
            g == graph@,
            (values@, executable@) == analysis_iterate(g, n),
            within(g, (values@, executable@)),
            progress((values@, executable@)) <= progress_bound(g),
        ensures
            (values@, executable@) == analysis_spec(g),
        decreases progress_bound(g) - progress((values@, executable@)),
    {
        let ghost before = (values@, executable@);
        let changed = analysis_pass_exec(graph, &mut values, &mut executable);
        proof {
            lemma_progress(g, before, (values@, executable@));
        }
        if !changed {
            proof {
                lemma_analysis_spec(g, n);
            }
            break;
        }
        proof {
            n = n + 1;
        }
    }
    (values, executable)
}


/// The number of operands an instruction reads.
pub open spec fn operand_count(instruction: SpecInstruction) -> nat {
    match instruction {
        SpecInstruction::Binary { .. } => 2,
        SpecInstruction::Bind { .. } => 1,
        SpecInstruction::Phi { incomings, .. } => incomings.len(),
    }
}

/// The number of operands a terminator reads.
pub open spec fn terminator_operand_count(terminator: Option<Terminator>) -> nat {
    match terminator {
        Some(Terminator::Return(_)) => 1,
        Some(Terminator::Branch { .. }) => 1,
        _ => 0,
    }
}

/// The operands read by the first `n` instructions.
pub open spec fn instruction_operands(instructions: Seq<SpecInstruction>, n: int) -> nat
    decreases n,
{
    if n <= 0 || n > instructions.len() {
        0
    } else {
        instruction_operands(instructions, n - 1) + operand_count(instructions[n - 1])
    }
}

/// The operands a block reads.
pub open spec fn block_operands(block: SpecBlock) -> nat {
    instruction_operands(block.instructions, block.instructions.len() as int)
        + terminator_operand_count(block.terminator)
}

/// The operands read by the first `n` blocks.
pub open spec fn operand_total(blocks: Seq<SpecBlock>, n: int) -> nat
    decreases n,
{
    if n <= 0 || n > blocks.len() {
        0
    } else {
        operand_total(blocks, n - 1) + block_operands(blocks[n - 1])
    }
}

/// The instructions in the first `n` blocks.
pub open spec fn instruction_total(blocks: Seq<SpecBlock>, n: int) -> nat
    decreases n,
{
    if n <= 0 || n > blocks.len() {
        0
    } else {
        instruction_total(blocks, n - 1) + blocks[n - 1].instructions.len()
    }
}

/// The size of a graph: its instructions and the operands they and the terminators read.
pub open spec fn graph_size(g: SpecCfg) -> nat {
    instruction_total(g.blocks, g.blocks.len() as int) + operand_total(g.blocks, g.blocks.len() as int)
}

proof fn lemma_instruction_operands_mono(instructions: Seq<SpecInstruction>, n: int, m: int)
    requires
        0 <= n <= m <= instructions.len(),
    ensures
        instruction_operands(instructions, n) <= instruction_operands(instructions, m),
    decreases m - n,
{
    if n < m {
        lemma_instruction_operands_mono(instructions, n, m - 1);
    }
}

proof fn lemma_operand_total_mono(blocks: Seq<SpecBlock>, n: int, m: int)
    requires
        0 <= n <= m <= blocks.len(),
    ensures
        operand_total(blocks, n) <= operand_total(blocks, m),
    decreases m - n,
{
    if n < m {
        lemma_operand_total_mono(blocks, n, m - 1);
    }
}

proof fn lemma_instruction_total_mono(blocks: Seq<SpecBlock>, n: int, m: int)
    requires
        0 <= n <= m <= blocks.len(),
    ensures
        instruction_total(blocks, n) <= instruction_total(blocks, m),
    decreases m - n,
{
    if n < m {
        lemma_instruction_total_mono(blocks, n, m - 1);
    }
}

/// An operand after propagation: a value known to be one constant becomes that constant.
pub open spec fn rewrite_operand_spec(operand: Operand, values: Map<ValueId, Lattice>) -> Operand {
    match lattice_of_spec(operand, values) {
        Lattice::Constant(c) => if operand is Value {
            Operand::Constant(c)
        } else {
            operand
        },
        _ => operand,
    }
}

/// Whether propagation replaces the operand.
pub open spec fn is_rewritten(operand: Operand, values: Map<ValueId, Lattice>) -> bool {
    operand is Value && lattice_of_spec(operand, values) is Constant
}

pub open spec fn count_if(b: bool) -> nat {
    if b {
        1
    } else {
        0
    }
}

/// The number of the first `n` incoming operands that propagation replaces.
pub open spec fn rewritten_incomings(incomings: Seq<(BlockId, Operand)>, n: int, values: Map<ValueId, Lattice>) -> nat
    decreases n,
{
    if n <= 0 || n > incomings.len() {
        0
    } else {
        rewritten_incomings(incomings, n - 1, values) + count_if(is_rewritten(incomings[n - 1].1, values))
    }
}

/// An instruction after propagation into its operands.
pub open spec fn rewrite_instruction_spec(instruction: SpecInstruction, values: Map<ValueId, Lattice>) -> SpecInstruction {
    match instruction {
        SpecInstruction::Binary { result, op, left, right } => SpecInstruction::Binary {
            result,
            op,
            left: rewrite_operand_spec(left, values),
            right: rewrite_operand_spec(right, values),
        },
        SpecInstruction::Bind { symbol_id, value } => SpecInstruction::Bind {
            symbol_id,
            value: rewrite_operand_spec(value, values),
        },
        SpecInstruction::Phi { result, symbol_id, incomings } => SpecInstruction::Phi {
            result,
            symbol_id,
            incomings: incomings.map_values(
                |p: (BlockId, Operand)| (p.0, rewrite_operand_spec(p.1, values)),
            ),
        },
    }
}

/// The number of operands of an instruction that propagation replaces.
pub open spec fn rewritten_in_instruction(instruction: SpecInstruction, values: Map<ValueId, Lattice>) -> nat {
    match instruction {
        SpecInstruction::Binary { left, right, .. } => count_if(is_rewritten(left, values)) + count_if(
            is_rewritten(right, values),
        ),
        SpecInstruction::Bind { value, .. } => count_if(is_rewritten(value, values)),
        SpecInstruction::Phi { incomings, .. } => rewritten_incomings(incomings, incomings.len() as int, values),
    }
}

/// The number of operands the first `n` instructions have replaced.
pub open spec fn rewritten_in_instructions(
    instructions: Seq<SpecInstruction>,
    n: int,
    values: Map<ValueId, Lattice>,
) -> nat
    decreases n,
{
    if n <= 0 || n > instructions.len() {
        0
    } else {
        rewritten_in_instructions(instructions, n - 1, values) + rewritten_in_instruction(instructions[n - 1], values)
    }
}

/// A terminator after propagation into its operand.
pub open spec fn rewrite_terminator_spec(terminator: Option<Terminator>, values: Map<ValueId, Lattice>) -> Option<Terminator> {
    match terminator {
        Some(Terminator::Return(value)) => Some(Terminator::Return(rewrite_operand_spec(value, values))),
        Some(Terminator::Branch { condition, then_block, else_block }) => Some(
            Terminator::Branch { condition: rewrite_operand_spec(condition, values), then_block, else_block },
        ),
        _ => terminator,
    }
}

pub open spec fn rewritten_in_terminator(terminator: Option<Terminator>, values: Map<ValueId, Lattice>) -> nat {
    match terminator {
        Some(Terminator::Return(value)) => count_if(is_rewritten(value, values)),
        Some(Terminator::Branch { condition, .. }) => count_if(is_rewritten(condition, values)),
        _ => 0,
    }
}

/// A block after propagation: executable blocks have known constants put in place of values.
pub open spec fn rewrite_block_spec(block: SpecBlock, values: Map<ValueId, Lattice>, executable: Set<BlockId>) -> SpecBlock {
    if executable.contains(block.id) {
        SpecBlock {
            id: block.id,
            instructions: block.instructions.map_values(|i: SpecInstruction| rewrite_instruction_spec(i, values)),
            terminator: rewrite_terminator_spec(block.terminator, values),
        }
    } else {
        block
    }
}

pub open spec fn rewritten_in_block(block: SpecBlock, values: Map<ValueId, Lattice>, executable: Set<BlockId>) -> nat {
    if executable.contains(block.id) {
        rewritten_in_instructions(block.instructions, block.instructions.len() as int, values)
            + rewritten_in_terminator(block.terminator, values)
    } else {
        0
    }
}

/// The number of operands the first `n` blocks have replaced.
pub open spec fn rewritten_in_blocks(
    blocks: Seq<SpecBlock>,
    n: int,
    values: Map<ValueId, Lattice>,
    executable: Set<BlockId>,
) -> nat
    decreases n,
{
    if n <= 0 || n > blocks.len() {
        0
    } else {
        rewritten_in_blocks(blocks, n - 1, values, executable) + rewritten_in_block(blocks[n - 1], values, executable)
    }
}

/// The graph after propagation.
pub open spec fn rewrite_spec(g: SpecCfg, values: Map<ValueId, Lattice>, executable: Set<BlockId>) -> SpecCfg {
    SpecCfg {
        entry: g.entry,
        blocks: g.blocks.map_values(|b: SpecBlock| rewrite_block_spec(b, values, executable)),
    }
}

/// Puts the constant in place of a value known to be that constant; tells how many it replaced.
fn rewrite_operand(operand: &mut Operand, values: &HashMap<ValueId, Lattice>) -> (count: usize)
    ensures
        *final(operand) == rewrite_operand_spec(*old(operand), values@),
        count == count_if(is_rewritten(*old(operand), values@)),
{
    if let Operand::Value(id) = *operand {
        if let Some(Lattice::Constant(value)) = values.get(&id) {
            *operand = Operand::Constant(*value);
            return 1;
        }
    }
    0
}

fn rewrite_instruction(instruction: &Instruction, values: &HashMap<ValueId, Lattice>) -> (result: (Instruction, usize))
    ensures
        result.0@ == rewrite_instruction_spec(instruction@, values@),
        result.1 == rewritten_in_instruction(instruction@, values@),
        result.1 <= operand_count(instruction@),
{
    match instruction {
        Instruction::Binary { result, op, left, right } => {
            let mut l = *left;
            let mut r = *right;
            let a = rewrite_operand(&mut l, values);
            let b = rewrite_operand(&mut r, values);
            (Instruction::Binary { result: *result, op: *op, left: l, right: r }, a + b)
        },
        Instruction::Bind { symbol_id, value } => {
            let mut v = *value;
            let a = rewrite_operand(&mut v, values);
            (Instruction::Bind { symbol_id: *symbol_id, value: v }, a)
        },
        Instruction::Phi { result, symbol_id, incomings } => {
            let mut rewritten: Vec<(BlockId, Operand)> = Vec::new();
            let mut count: usize = 0;
            let mut k: usize = 0;
            while k < incomings.len()
                invariant
                    0 <= k <= incomings.len(),
                    rewritten@ =~= incomings@.subrange(0, k as int).map_values(
                        |p: (BlockId, Operand)| (p.0, rewrite_operand_spec(p.1, values@)),
                    ),
                    count == rewritten_incomings(incomings@, k as int, values@),
                    count <= k,
                decreases incomings.len() - k,
            {
                let (block, operand) = incomings[k];
                let mut o = operand;
                let c = rewrite_operand(&mut o, values);
                rewritten.push((block, o));
                count = count + c;
                k = k + 1;
            }
            proof {
                assert(incomings@.subrange(0, incomings@.len() as int) =~= incomings@);
            }
            (Instruction::Phi { result: *result, symbol_id: *symbol_id, incomings: rewritten }, count)
        },
    }
}

/// Propagates the constants the analysis found into every executable block; returns how many
/// operands it replaced.
fn rewrite_operands(
    graph: &mut ControlFlowGraph,
    values: &HashMap<ValueId, Lattice>,
    executable: &HashSet<BlockId>,
) -> (propagated: usize)
    requires
        operand_total(old(graph)@.blocks, old(graph)@.blocks.len() as int) <= usize::MAX,
    ensures
        final(graph)@ == rewrite_spec(old(graph)@, values@, executable@),
        propagated == rewritten_in_blocks(
            old(graph)@.blocks,
            old(graph)@.blocks.len() as int,
            values@,
            executable@,
        ),
        propagated <= operand_total(old(graph)@.blocks, old(graph)@.blocks.len() as int),
{
    let ghost g = graph@;
    let blocks = graph.blocks();
    let mut rewritten: Vec<BasicBlock> = Vec::new();
    let mut propagated: usize = 0;
    let mut b: usize = 0;
    while b < blocks.len()
        invariant
            g == old(graph)@,
            blocks_view(blocks@) == g.blocks,
            g.blocks.len() == blocks@.len(),
            operand_total(g.blocks, g.blocks.len() as int) <= usize::MAX,
            0 <= b <= blocks.len(),
            blocks_view(rewritten@) =~= g.blocks.subrange(0, b as int).map_values(
                |x: SpecBlock| rewrite_block_spec(x, values@, executable@),
            ),
            propagated == rewritten_in_blocks(g.blocks, b as int, values@, executable@),
            propagated <= operand_total(g.blocks, b as int),
        decreases blocks.len() - b,
    {
        let block = &blocks[b];
        let ghost bv = block@;
        proof {
            assert(g.blocks[b as int] == bv);
            lemma_operand_total_mono(g.blocks, b + 1, g.blocks.len() as int);
        }
        if executable.contains(&block.id()) {
            let instructions = block.instructions();
            let mut new_instructions: Vec<Instruction> = Vec::new();
            let mut count: usize = 0;
            let mut i: usize = 0;
            while i < instructions.len()
                invariant
                    instructions_view(instructions@) == bv.instructions,
                    0 <= i <= instructions.len(),
                    instructions_view(new_instructions@) =~= bv.instructions.subrange(0, i as int).map_values(
                        |x: SpecInstruction| rewrite_instruction_spec(x, values@),
                    ),
                    count == rewritten_in_instructions(bv.instructions, i as int, values@),
                    count <= instruction_operands(bv.instructions, i as int),
                    propagated + instruction_operands(bv.instructions, bv.instructions.len() as int) <= usize::MAX,
                decreases instructions.len() - i,
            {
                proof {
                    assert(bv.instructions[i as int] == instructions@[i as int]@);
                    lemma_instruction_operands_mono(bv.instructions, i + 1, bv.instructions.len() as int);
                }
                let (rewritten_instruction, c) = rewrite_instruction(&instructions[i], values);
                let ghost before = new_instructions@;
                new_instructions.push(rewritten_instruction);
                proof {
                    assert(instructions_view(new_instructions@) =~= instructions_view(before).push(
                        rewrite_instruction_spec(bv.instructions[i as int], values@),
                    ));
                }
                count = count + c;
                i = i + 1;
            }
            let (terminator, t) = match block.terminator() {
                Some(Terminator::Return(value)) => {
                    let mut v = *value;
                    let c = rewrite_operand(&mut v, values);
                    (Some(Terminator::Return(v)), c)
                },
                Some(Terminator::Branch { condition, then_block, else_block }) => {
                    let mut v = *condition;
                    let c = rewrite_operand(&mut v, values);
                    (Some(Terminator::Branch { condition: v, then_block: *then_block, else_block: *else_block }), c)
                },
                Some(Terminator::Jump(target)) => (Some(Terminator::Jump(*target)), 0),
                None => (None, 0),
            };
            proof {
                assert(bv.instructions.subrange(0, bv.instructions.len() as int) =~= bv.instructions);
            }
            let ghost before = rewritten@;
            rewritten.push(BasicBlock::from_parts(block.id(), new_instructions, terminator));
            proof {
                assert(blocks_view(rewritten@) =~= blocks_view(before).push(
                    rewrite_block_spec(bv, values@, executable@),
                ));
            }
            propagated = propagated + count + t;
        } else {
            let ghost before = rewritten@;
            rewritten.push(block.clone());
            proof {
                assert(blocks_view(rewritten@) =~= blocks_view(before).push(
                    rewrite_block_spec(bv, values@, executable@),
                ));
            }
        }
        b = b + 1;
    }
    proof {
        assert(g.blocks.subrange(0, g.blocks.len() as int) =~= g.blocks);
    }
    *graph = ControlFlowGraph::from_parts(graph.entry(), rewritten);
    propagated
}


/// A terminator after branch folding: a branch on a known constant becomes a jump to the side
/// it takes.
pub open spec fn fold_terminator_spec(terminator: Option<Terminator>, values: Map<ValueId, Lattice>) -> Option<Terminator> {
    match terminator {
        Some(Terminator::Branch { condition, then_block, else_block }) => match lattice_of_spec(
            condition,
            values,
        ) {
            Lattice::Constant(v) => Some(
                Terminator::Jump(
                    if v != 0 {
                        then_block
                    } else {
                        else_block
                    },
                ),
            ),
            _ => terminator,
        },
        _ => terminator,
    }
}

/// Whether branch folding replaces the terminator of this block.
pub open spec fn is_folded(block: SpecBlock, values: Map<ValueId, Lattice>, executable: Set<BlockId>) -> bool {
    &&& executable.contains(block.id)
    &&& block.terminator matches Some(Terminator::Branch { condition, .. })
    &&& lattice_of_spec(block.terminator->0->condition, values) is Constant
}

pub open spec fn fold_block_spec(block: SpecBlock, values: Map<ValueId, Lattice>, executable: Set<BlockId>) -> SpecBlock {
    if executable.contains(block.id) {
        SpecBlock {
            id: block.id,
            instructions: block.instructions,
            terminator: fold_terminator_spec(block.terminator, values),
        }
    } else {
        block
    }
}

/// The graph after branch folding in the executable blocks.
pub open spec fn fold_spec(g: SpecCfg, values: Map<ValueId, Lattice>, executable: Set<BlockId>) -> SpecCfg {
    SpecCfg {
        entry: g.entry,
        blocks: g.blocks.map_values(|b: SpecBlock| fold_block_spec(b, values, executable)),
    }
}

/// The number of the first `n` blocks whose branch folding replaces.
pub open spec fn folded_count(
    blocks: Seq<SpecBlock>,
    n: int,
    values: Map<ValueId, Lattice>,
    executable: Set<BlockId>,
) -> nat
    decreases n,
{
    if n <= 0 || n > blocks.len() {
        0
    } else {
        folded_count(blocks, n - 1, values, executable) + count_if(is_folded(blocks[n - 1], values, executable))
    }
}

/// Turns branches on known constants in executable blocks into jumps; returns how many.
fn fold_branches(
    graph: &mut ControlFlowGraph,
    values: &HashMap<ValueId, Lattice>,
    executable: &HashSet<BlockId>,
) -> (folded: usize)
    ensures
        final(graph)@ == fold_spec(old(graph)@, values@, executable@),
        folded == folded_count(old(graph)@.blocks, old(graph)@.blocks.len() as int, values@, executable@),
        folded <= old(graph)@.blocks.len(),
{
    let ghost g = graph@;
    let blocks = graph.blocks();
    let mut result: Vec<BasicBlock> = Vec::new();
    let mut folded: usize = 0;
    let mut b: usize = 0;
    while b < blocks.len()
        invariant
            g == old(graph)@,
            blocks_view(blocks@) == g.blocks,
            g.blocks.len() == blocks@.len(),
            0 <= b <= blocks.len(),
            blocks_view(result@) =~= g.blocks.subrange(0, b as int).map_values(
                |x: SpecBlock| fold_block_spec(x, values@, executable@),
            ),
            folded == folded_count(g.blocks, b as int, values@, executable@),
            folded <= b,
        decreases blocks.len() - b,
    {
        let block = &blocks[b];
        let ghost bv = block@;
        proof {
            assert(g.blocks[b as int] == bv);
        }
        let ghost before = result@;
        if executable.contains(&block.id()) {
            let replacement = match block.terminator() {
                Some(Terminator::Branch { condition, then_block, else_block }) => match lattice_of(
                    *condition,
                    values,
                ) {
                    Lattice::Constant(value) => Some(
                        Terminator::Jump(
                            if value != 0 {
                                *then_block
                            } else {
                                *else_block
                            },
                        ),
                    ),
                    _ => None,
                },
                _ => None,
            };
            let mut instructions: Vec<Instruction> = Vec::new();
            let source = block.instructions();
            let mut i: usize = 0;
            while i < source.len()
                invariant
                    instructions_view(source@) == bv.instructions,
                    0 <= i <= source.len(),
                    instructions_view(instructions@) =~= bv.instructions.subrange(0, i as int),
                decreases source.len() - i,
            {
                let ghost prior = instructions@;
                instructions.push(source[i].clone());
                proof {
                    assert(instructions_view(instructions@) =~= instructions_view(prior).push(
                        source@[i as int]@,
                    ));
                }
                i = i + 1;
            }
            proof {
                assert(bv.instructions.subrange(0, bv.instructions.len() as int) =~= bv.instructions);
            }
            match replacement {
                Some(jump) => {
                    result.push(BasicBlock::from_parts(block.id(), instructions, Some(jump)));
                    folded = folded + 1;
                },
                None => {
                    let terminator = match block.terminator() {
                        Some(t) => Some(*t),
                        None => None,
                    };
                    result.push(BasicBlock::from_parts(block.id(), instructions, terminator));
                },
            }
        } else {
            result.push(block.clone());
        }
        proof {
            assert(blocks_view(result@) =~= blocks_view(before).push(
                fold_block_spec(bv, values@, executable@),
            ));
        }
        b = b + 1;
    }
    proof {
        assert(g.blocks.subrange(0, g.blocks.len() as int) =~= g.blocks);
    }
    *graph = ControlFlowGraph::from_parts(graph.entry(), result);
    folded
}

/// The first `n` incoming edges whose block is among `predecessors`, in order.
pub open spec fn live_incomings(incomings: Seq<(BlockId, Operand)>, n: int, predecessors: Seq<BlockId>) -> Seq<
    (BlockId, Operand),
>
    decreases n,
{
    if n <= 0 || n > incomings.len() {
        Seq::empty()
    } else {
        let before = live_incomings(incomings, n - 1, predecessors);
        if predecessors.contains(incomings[n - 1].0) {
            before.push(incomings[n - 1])
        } else {
            before
        }
    }
}

/// An instruction with the phi edges from blocks that are no longer predecessors dropped.
pub open spec fn simplify_instruction_spec(instruction: SpecInstruction, predecessors: Seq<BlockId>) -> SpecInstruction {
    match instruction {
        SpecInstruction::Phi { result, symbol_id, incomings } => SpecInstruction::Phi {
            result,
            symbol_id,
            incomings: live_incomings(incomings, incomings.len() as int, predecessors),
        },
        _ => instruction,
    }
}

pub open spec fn simplify_block_spec(g: SpecCfg, block: SpecBlock) -> SpecBlock {
    SpecBlock {
        id: block.id,
        instructions: block.instructions.map_values(
            |i: SpecInstruction| simplify_instruction_spec(i, crate::cfg::predecessors_spec(g, block.id)),
        ),
        terminator: block.terminator,
    }
}

/// The graph with every phi keeping only the edges from its block's predecessors.
pub open spec fn simplify_spec(g: SpecCfg) -> SpecCfg {
    SpecCfg { entry: g.entry, blocks: g.blocks.map_values(|b: SpecBlock| simplify_block_spec(g, b)) }
}

fn simplify_instruction(instruction: &Instruction, predecessors: &Vec<BlockId>) -> (simplified: Instruction)
    ensures
        simplified@ == simplify_instruction_spec(instruction@, predecessors@),
{
    match instruction {
        Instruction::Phi { result, symbol_id, incomings } => {
            let mut live: Vec<(BlockId, Operand)> = Vec::new();
            let mut k: usize = 0;
            while k < incomings.len()
                invariant
                    0 <= k <= incomings.len(),
                    live@ == live_incomings(incomings@, k as int, predecessors@),
                decreases incomings.len() - k,
            {
                if crate::cfg::contains_id(predecessors, incomings[k].0) {
                    live.push(incomings[k]);
                }
                k = k + 1;
            }
            Instruction::Phi { result: *result, symbol_id: *symbol_id, incomings: live }
        },
        _ => instruction.clone(),
    }
}

/// Drops the phi edges from blocks that are no longer predecessors.
pub(crate) fn simplify_phis(graph: &mut ControlFlowGraph)
    ensures
        final(graph)@ == simplify_spec(old(graph)@),
{
    let ghost g = graph@;
    let blocks = graph.blocks();
    let mut result: Vec<BasicBlock> = Vec::new();
    let mut b: usize = 0;
    while b < blocks.len()
        invariant
            g == old(graph)@,
            g == graph@,
            blocks_view(blocks@) == g.blocks,
            g.blocks.len() == blocks@.len(),
            0 <= b <= blocks.len(),
            blocks_view(result@) =~= g.blocks.subrange(0, b as int).map_values(
                |x: SpecBlock| simplify_block_spec(g, x),
            ),
        decreases blocks.len() - b,
    {
        let block = &blocks[b];
        let ghost bv = block@;
        proof {
            assert(g.blocks[b as int] == bv);
        }
        let predecessors = graph.predecessors(block.id());
        let source = block.instructions();
        let mut instructions: Vec<Instruction> = Vec::new();
        let mut i: usize = 0;
        while i < source.len()
            invariant
                instructions_view(source@) == bv.instructions,
                predecessors@ == crate::cfg::predecessors_spec(g, bv.id),
                0 <= i <= source.len(),
                instructions_view(instructions@) =~= bv.instructions.subrange(0, i as int).map_values(
                    |x: SpecInstruction| simplify_instruction_spec(x, crate::cfg::predecessors_spec(g, bv.id)),
                ),
            decreases source.len() - i,
        {
            let ghost prior = instructions@;
            proof {
                assert(bv.instructions[i as int] == source@[i as int]@);
            }
            instructions.push(simplify_instruction(&source[i], &predecessors));
            proof {
                assert(instructions_view(instructions@) =~= instructions_view(prior).push(
                    simplify_instruction_spec(bv.instructions[i as int], predecessors@),
                ));
            }
            i = i + 1;
        }
        proof {
            assert(bv.instructions.subrange(0, bv.instructions.len() as int) =~= bv.instructions);
        }
        let terminator = match block.terminator() {
            Some(t) => Some(*t),
            None => None,
        };
        let ghost before = result@;
        result.push(BasicBlock::from_parts(block.id(), instructions, terminator));
        proof {
            assert(blocks_view(result@) =~= blocks_view(before).push(simplify_block_spec(g, bv)));
        }
        b = b + 1;
    }
    proof {
        assert(g.blocks.subrange(0, g.blocks.len() as int) =~= g.blocks);
    }
    *graph = ControlFlowGraph::from_parts(graph.entry(), result);
}


/// The value an operand reads, if any.
pub open spec fn operand_uses(operand: Operand) -> Set<ValueId> {
    match operand {
        Operand::Value(id) => set![id],
        Operand::Constant(_) => Set::empty(),
    }
}

pub open spec fn incoming_uses(incomings: Seq<(BlockId, Operand)>, n: int) -> Set<ValueId>
    decreases n,
{
    if n <= 0 || n > incomings.len() {
        Set::empty()
    } else {
        incoming_uses(incomings, n - 1).union(operand_uses(incomings[n - 1].1))
    }
}

/// The values an instruction reads.
pub open spec fn instruction_uses(instruction: SpecInstruction) -> Set<ValueId> {
    match instruction {
        SpecInstruction::Binary { left, right, .. } => operand_uses(left).union(operand_uses(right)),
        SpecInstruction::Bind { value, .. } => operand_uses(value),
        SpecInstruction::Phi { incomings, .. } => incoming_uses(incomings, incomings.len() as int),
    }
}

pub open spec fn instructions_uses(instructions: Seq<SpecInstruction>, n: int) -> Set<ValueId>
    decreases n,
{
    if n <= 0 || n > instructions.len() {
        Set::empty()
    } else {
        instructions_uses(instructions, n - 1).union(instruction_uses(instructions[n - 1]))
    }
}

pub open spec fn terminator_uses(terminator: Option<Terminator>) -> Set<ValueId> {
    match terminator {
        Some(Terminator::Return(value)) => operand_uses(value),
        Some(Terminator::Branch { condition, .. }) => operand_uses(condition),
        _ => Set::empty(),
    }
}

/// The values the first `n` blocks read.
pub open spec fn blocks_uses(blocks: Seq<SpecBlock>, n: int) -> Set<ValueId>
    decreases n,
{
    if n <= 0 || n > blocks.len() {
        Set::empty()
    } else {
        blocks_uses(blocks, n - 1).union(
            instructions_uses(blocks[n - 1].instructions, blocks[n - 1].instructions.len() as int),
        ).union(terminator_uses(blocks[n - 1].terminator))
    }
}

/// Every value some operand of the graph reads.
pub open spec fn used_values(g: SpecCfg) -> Set<ValueId> {
    blocks_uses(g.blocks, g.blocks.len() as int)
}

/// Whether an instruction computes a value that nothing reads.
pub open spec fn is_dead(instruction: SpecInstruction, used: Set<ValueId>) -> bool {
    !(instruction is Bind) && !used.contains(result_key(instruction))
}

/// The first `n` instructions without the dead ones, in order.
pub open spec fn live_instructions(instructions: Seq<SpecInstruction>, n: int, used: Set<ValueId>) -> Seq<SpecInstruction>
    decreases n,
{
    if n <= 0 || n > instructions.len() {
        Seq::empty()
    } else {
        let before = live_instructions(instructions, n - 1, used);
        if is_dead(instructions[n - 1], used) {
            before
        } else {
            before.push(instructions[n - 1])
        }
    }
}

/// The number of dead instructions among the first `n`.
pub open spec fn dead_count(instructions: Seq<SpecInstruction>, n: int, used: Set<ValueId>) -> nat
    decreases n,
{
    if n <= 0 || n > instructions.len() {
        0
    } else {
        dead_count(instructions, n - 1, used) + count_if(is_dead(instructions[n - 1], used))
    }
}

/// The number of dead phis among the first `n` instructions.
pub open spec fn dead_phi_count(instructions: Seq<SpecInstruction>, n: int, used: Set<ValueId>) -> nat
    decreases n,
{
    if n <= 0 || n > instructions.len() {
        0
    } else {
        dead_phi_count(instructions, n - 1, used) + count_if(
            instructions[n - 1] is Phi && is_dead(instructions[n - 1], used),
        )
    }
}

pub open spec fn dce_block_spec(block: SpecBlock, used: Set<ValueId>) -> SpecBlock {
    SpecBlock {
        id: block.id,
        instructions: live_instructions(block.instructions, block.instructions.len() as int, used),
        terminator: block.terminator,
    }
}

/// The dead instructions in the first `n` blocks.
pub open spec fn dead_total(blocks: Seq<SpecBlock>, n: int, used: Set<ValueId>) -> nat
    decreases n,
{
    if n <= 0 || n > blocks.len() {
        0
    } else {
        dead_total(blocks, n - 1, used) + dead_count(
            blocks[n - 1].instructions,
            blocks[n - 1].instructions.len() as int,
            used,
        )
    }
}

/// The dead phis in the first `n` blocks.
pub open spec fn dead_phi_total(blocks: Seq<SpecBlock>, n: int, used: Set<ValueId>) -> nat
    decreases n,
{
    if n <= 0 || n > blocks.len() {
        0
    } else {
        dead_phi_total(blocks, n - 1, used) + dead_phi_count(
            blocks[n - 1].instructions,
            blocks[n - 1].instructions.len() as int,
            used,
        )
    }
}

/// One round of dead-code elimination: every binary instruction or phi whose value no operand
/// of the graph reads is removed.
pub open spec fn dce_pass_spec(g: SpecCfg) -> SpecCfg {
    SpecCfg {
        entry: g.entry,
        blocks: g.blocks.map_values(|b: SpecBlock| dce_block_spec(b, used_values(g))),
    }
}

/// Rounds of dead-code elimination until one removes nothing (at most `fuel` rounds): the graph,
/// the instructions removed and the phis among them.
pub open spec fn dce_from(g: SpecCfg, fuel: nat) -> (SpecCfg, nat, nat)
    decreases fuel,
{
    let used = used_values(g);
    let removed = dead_total(g.blocks, g.blocks.len() as int, used);
    if fuel == 0 || removed == 0 {
        (g, 0, 0)
    } else {
        let (h, r, p) = dce_from(dce_pass_spec(g), (fuel - 1) as nat);
        (h, removed + r, dead_phi_total(g.blocks, g.blocks.len() as int, used) + p)
    }
}

/// Dead-code elimination: rounds until nothing more is dead (each round removes an instruction,
/// so there are fewer rounds than instructions).
pub open spec fn dce_spec(g: SpecCfg) -> (SpecCfg, nat, nat) {
    dce_from(g, instruction_total(g.blocks, g.blocks.len() as int) + 1)
}

proof fn lemma_live_len(instructions: Seq<SpecInstruction>, n: int, used: Set<ValueId>)
    requires
        0 <= n <= instructions.len(),
    ensures
        live_instructions(instructions, n, used).len() + dead_count(instructions, n, used) == n,
        dead_phi_count(instructions, n, used) <= dead_count(instructions, n, used),
    decreases n,
{
    if n > 0 {
        lemma_live_len(instructions, n - 1, used);
    }
}

pub(crate) proof fn lemma_dce_total(blocks: Seq<SpecBlock>, n: int, used: Set<ValueId>)
    requires
        0 <= n <= blocks.len(),
    ensures
        instruction_total(blocks.map_values(|b: SpecBlock| dce_block_spec(b, used)), n) + dead_total(
            blocks,
            n,
            used,
        ) == instruction_total(blocks, n),
        dead_phi_total(blocks, n, used) <= dead_total(blocks, n, used),
    decreases n,
{
    if n > 0 {
        lemma_dce_total(blocks, n - 1, used);
        lemma_live_len(blocks[n - 1].instructions, blocks[n - 1].instructions.len() as int, used);
    }
}

proof fn lemma_nothing_dead_in(instructions: Seq<SpecInstruction>, n: int, used: Set<ValueId>)
    requires
        0 <= n <= instructions.len(),
        dead_count(instructions, n, used) == 0,
    ensures
        live_instructions(instructions, n, used) =~= instructions.subrange(0, n),
    decreases n,
{
    if n > 0 {
        lemma_nothing_dead_in(instructions, n - 1, used);
    }
}

/// A round that finds nothing dead leaves the blocks as they are.
pub proof fn lemma_nothing_dead(blocks: Seq<SpecBlock>, n: int, used: Set<ValueId>)
    requires
        0 <= n <= blocks.len(),
        dead_total(blocks, n, used) == 0,
    ensures
        forall|k: int| 0 <= k < n ==> #[trigger] dce_block_spec(blocks[k], used) == blocks[k],
    decreases n,
{
    if n > 0 {
        lemma_nothing_dead(blocks, n - 1, used);
        let b = blocks[n - 1];
        lemma_nothing_dead_in(b.instructions, b.instructions.len() as int, used);
        assert(b.instructions.subrange(0, b.instructions.len() as int) =~= b.instructions);
    }
}

/// Later rounds of dead-code elimination never add instructions.
proof fn lemma_dce_from(g: SpecCfg, fuel: nat)
    ensures
        instruction_total(dce_from(g, fuel).0.blocks, dce_from(g, fuel).0.blocks.len() as int)
            + dce_from(g, fuel).1 == instruction_total(g.blocks, g.blocks.len() as int),
        dce_from(g, fuel).2 <= dce_from(g, fuel).1,
    decreases fuel,
{
    let used = used_values(g);
    let removed = dead_total(g.blocks, g.blocks.len() as int, used);
    if fuel > 0 && removed > 0 {
        lemma_dce_total(g.blocks, g.blocks.len() as int, used);
        lemma_dce_from(dce_pass_spec(g), (fuel - 1) as nat);
    }
}

/// Collects every value some operand of the graph reads.
fn used_values_exec(graph: &ControlFlowGraph) -> (used: HashSet<ValueId>)
    ensures
        used@ == used_values(graph@),
{
    let ghost g = graph@;
    let blocks = graph.blocks();
    let mut used: HashSet<ValueId> = HashSet::new();
    proof {
        assert(used@ =~= blocks_uses(g.blocks, 0));
    }
    let mut b: usize = 0;
    while b < blocks.len()
        invariant
            blocks_view(blocks@) == g.blocks,
            g.blocks.len() == blocks@.len(),
            0 <= b <= blocks.len(),
            used@ == blocks_uses(g.blocks, b as int),
        decreases blocks.len() - b,
    {
        let block = &blocks[b];
        let ghost bv = block@;
        let ghost at_block = used@;
        proof {
            assert(g.blocks[b as int] == bv);
        }
        let instructions = block.instructions();
        let mut i: usize = 0;
        proof {
            assert(used@ =~= at_block.union(instructions_uses(bv.instructions, 0)));
        }
        while i < instructions.len()
            invariant
                instructions_view(instructions@) == bv.instructions,
                0 <= i <= instructions.len(),
                used@ == at_block.union(instructions_uses(bv.instructions, i as int)),
            decreases instructions.len() - i,
        {
            let ghost prior = used@;
            proof {
                assert(bv.instructions[i as int] == instructions@[i as int]@);
            }
            match &instructions[i] {
                Instruction::Binary { left, right, .. } => {
                    use_operand(&mut used, *left);
                    use_operand(&mut used, *right);
                },
                Instruction::Bind { value, .. } => {
                    use_operand(&mut used, *value);
                },
                Instruction::Phi { incomings, .. } => {
                    let mut k: usize = 0;
                    proof {
                        assert(used@ =~= prior.union(incoming_uses(incomings@, 0)));
                    }
                    while k < incomings.len()
                        invariant
                            0 <= k <= incomings.len(),
                            used@ == prior.union(incoming_uses(incomings@, k as int)),
                        decreases incomings.len() - k,
                    {
                        use_operand(&mut used, incomings[k].1);
                        proof {
                            assert(used@ =~= prior.union(incoming_uses(incomings@, k + 1)));
                        }
                        k = k + 1;
                    }
                },
            }
            proof {
                assert(used@ =~= at_block.union(instructions_uses(bv.instructions, i + 1)));
            }
            i = i + 1;
        }
        match block.terminator() {
            Some(Terminator::Return(value)) => {
                use_operand(&mut used, *value);
            },
            Some(Terminator::Branch { condition, .. }) => {
                use_operand(&mut used, *condition);
            },
            _ => {},
        }
        proof {
            assert(used@ =~= blocks_uses(g.blocks, b + 1));
        }
        b = b + 1;
    }
    used
}

fn use_operand(used: &mut HashSet<ValueId>, operand: Operand)
    ensures
        final(used)@ == old(used)@.union(operand_uses(operand)),
{
    if let Operand::Value(id) = operand {
        used.insert(id);
    }
    proof {
        assert(used@ =~= old(used)@.union(operand_uses(operand)));
    }
}

/// One round of dead-code elimination; returns the instructions and the phis it removed.
fn dce_pass(graph: &mut ControlFlowGraph) -> (removed: (usize, usize))
    requires
        instruction_total(old(graph)@.blocks, old(graph)@.blocks.len() as int) <= usize::MAX,
    ensures
        final(graph)@ == dce_pass_spec(old(graph)@),
        removed.0 == dead_total(old(graph)@.blocks, old(graph)@.blocks.len() as int, used_values(old(graph)@)),
        removed.1 == dead_phi_total(old(graph)@.blocks, old(graph)@.blocks.len() as int, used_values(old(graph)@)),
{
    let ghost g = graph@;
    let used = used_values_exec(graph);
    let ghost u = used@;
    let blocks = graph.blocks();
    let mut result: Vec<BasicBlock> = Vec::new();
    let mut removed: usize = 0;
    let mut phis: usize = 0;
    let mut b: usize = 0;
    while b < blocks.len()
        invariant
            g == old(graph)@,
            u == used_values(g),
            u == used@,
            blocks_view(blocks@) == g.blocks,
            g.blocks.len() == blocks@.len(),
            instruction_total(g.blocks, g.blocks.len() as int) <= usize::MAX,
            0 <= b <= blocks.len(),
            blocks_view(result@) =~= g.blocks.subrange(0, b as int).map_values(
                |x: SpecBlock| dce_block_spec(x, u),
            ),
            removed == dead_total(g.blocks, b as int, u),
            phis == dead_phi_total(g.blocks, b as int, u),
            removed <= instruction_total(g.blocks, b as int),
            phis <= removed,
        decreases blocks.len() - b,
    {
        let block = &blocks[b];
        let ghost bv = block@;
        proof {
            assert(g.blocks[b as int] == bv);
            lemma_instruction_total_mono(g.blocks, b + 1, g.blocks.len() as int);
        }
        let source = block.instructions();
        let mut instructions: Vec<Instruction> = Vec::new();
        let mut dead: usize = 0;
        let mut dead_phis: usize = 0;
        let mut i: usize = 0;
        while i < source.len()
            invariant
                instructions_view(source@) == bv.instructions,
                u == used@,
                0 <= i <= source.len(),
                instructions_view(instructions@) == live_instructions(bv.instructions, i as int, u),
                dead == dead_count(bv.instructions, i as int, u),
                dead_phis == dead_phi_count(bv.instructions, i as int, u),
                dead <= i,
                dead_phis <= dead,
            decreases source.len() - i,
        {
            let ghost prior = instructions@;
            proof {
                assert(bv.instructions[i as int] == source@[i as int]@);
            }
            let (is_phi, result) = match &source[i] {
                Instruction::Binary { result, .. } => (false, Some(*result)),
                Instruction::Phi { result, .. } => (true, Some(*result)),
                Instruction::Bind { .. } => (false, None),
            };
            let dead_here = match result {
                Some(r) => !used.contains(&r),
                None => false,
            };
            if dead_here {
                dead = dead + 1;
                if is_phi {
                    dead_phis = dead_phis + 1;
                }
            } else {
                instructions.push(source[i].clone());
                proof {
                    assert(instructions_view(instructions@) =~= instructions_view(prior).push(
                        bv.instructions[i as int],
                    ));
                }
            }
            i = i + 1;
        }
        let terminator = match block.terminator() {
            Some(t) => Some(*t),
            None => None,
        };
        let ghost before = result@;
        result.push(BasicBlock::from_parts(block.id(), instructions, terminator));
        proof {
            assert(blocks_view(result@) =~= blocks_view(before).push(dce_block_spec(bv, u)));
        }
        removed = removed + dead;
        phis = phis + dead_phis;
        b = b + 1;
    }
    proof {
        assert(g.blocks.subrange(0, g.blocks.len() as int) =~= g.blocks);
    }
    *graph = ControlFlowGraph::from_parts(graph.entry(), result);
    (removed, phis)
}

/// Dead-code elimination: removes binary instructions and phis whose value nothing reads, round
/// after round until a round removes nothing; returns the instructions and phis removed.
fn eliminate_dead_code(graph: &mut ControlFlowGraph) -> (removed: (usize, usize))
    requires
        instruction_total(old(graph)@.blocks, old(graph)@.blocks.len() as int) <= usize::MAX,
    ensures
        (final(graph)@, removed.0 as nat, removed.1 as nat) == dce_spec(old(graph)@),
{
    let ghost g0 = graph@;
    let ghost total0 = instruction_total(g0.blocks, g0.blocks.len() as int);
    let ghost mut fuel: nat = total0 + 1;
    let mut removed: usize = 0;
    let mut phis: usize = 0;
    loop
        invariant
            fuel >= instruction_total(graph@.blocks, graph@.blocks.len() as int) + 1,
            removed + instruction_total(graph@.blocks, graph@.blocks.len() as int) == total0,
            phis <= removed,
            total0 <= usize::MAX,
            dce_spec(g0) == ({
                let (h, r, p) = dce_from(graph@, fuel);
                (h, (removed + r) as nat, (phis + p) as nat)
            }),
        ensures
            dce_spec(g0) == (graph@, removed as nat, phis as nat),
        decreases instruction_total(graph@.blocks, graph@.blocks.len() as int),
    {
        let ghost before = graph@;
        proof {
            lemma_dce_total(before.blocks, before.blocks.len() as int, used_values(before));
        }
        let (r, p) = dce_pass(graph);
        if r == 0 {
            proof {
                lemma_nothing_dead(before.blocks, before.blocks.len() as int, used_values(before));
                assert(graph@.blocks =~= before.blocks);
            }
            break;
        }
        removed = removed + r;
        phis = phis + p;
        proof {
            fuel = (fuel - 1) as nat;
        }
    }
    (removed, phis)
}

/// The phis among the first `n` instructions.
pub open spec fn phi_count_in(instructions: Seq<SpecInstruction>, n: int) -> nat
    decreases n,
{
    if n <= 0 || n > instructions.len() {
        0
    } else {
        phi_count_in(instructions, n - 1) + count_if(instructions[n - 1] is Phi)
    }
}

/// The phis in the first `n` blocks.
pub open spec fn phi_total(blocks: Seq<SpecBlock>, n: int) -> nat
    decreases n,
{
    if n <= 0 || n > blocks.len() {
        0
    } else {
        phi_total(blocks, n - 1) + phi_count_in(blocks[n - 1].instructions, blocks[n - 1].instructions.len() as int)
    }
}

proof fn lemma_phi_count_in(instructions: Seq<SpecInstruction>, n: int)
    requires
        0 <= n <= instructions.len(),
    ensures
        phi_count_in(instructions, n) <= n,
    decreases n,
{
    if n > 0 {
        lemma_phi_count_in(instructions, n - 1);
    }
}

proof fn lemma_phi_total(blocks: Seq<SpecBlock>, n: int)
    requires
        0 <= n <= blocks.len(),
    ensures
        phi_total(blocks, n) <= instruction_total(blocks, n),
    decreases n,
{
    if n > 0 {
        lemma_phi_total(blocks, n - 1);
        lemma_phi_count_in(blocks[n - 1].instructions, blocks[n - 1].instructions.len() as int);
    }
}

/// The number of instructions in the graph.
fn instruction_count(graph: &ControlFlowGraph) -> (count: usize)
    requires
        instruction_total(graph@.blocks, graph@.blocks.len() as int) <= usize::MAX,
    ensures
        count == instruction_total(graph@.blocks, graph@.blocks.len() as int),
{
    let ghost g = graph@;
    let blocks = graph.blocks();
    let mut count: usize = 0;
    let mut b: usize = 0;
    while b < blocks.len()
        invariant
            blocks_view(blocks@) == g.blocks,
            g.blocks.len() == blocks@.len(),
            instruction_total(g.blocks, g.blocks.len() as int) <= usize::MAX,
            0 <= b <= blocks.len(),
            count == instruction_total(g.blocks, b as int),
        decreases blocks.len() - b,
    {
        proof {
            assert(g.blocks[b as int] == blocks@[b as int]@);
            lemma_instruction_total_mono(g.blocks, b + 1, g.blocks.len() as int);
        }
        count = count + blocks[b].instructions().len();
        b = b + 1;
    }
    count
}

/// The number of phis in the graph.
fn phi_count(graph: &ControlFlowGraph) -> (count: usize)
    requires
        instruction_total(graph@.blocks, graph@.blocks.len() as int) <= usize::MAX,
    ensures
        count == phi_total(graph@.blocks, graph@.blocks.len() as int),
{
    let ghost g = graph@;
    let blocks = graph.blocks();
    let mut count: usize = 0;
    let mut b: usize = 0;
    while b < blocks.len()
        invariant
            blocks_view(blocks@) == g.blocks,
            g.blocks.len() == blocks@.len(),
            instruction_total(g.blocks, g.blocks.len() as int) <= usize::MAX,
            0 <= b <= blocks.len(),
            count == phi_total(g.blocks, b as int),
        decreases blocks.len() - b,
    {
        let ghost bv = blocks@[b as int]@;
        proof {
            assert(g.blocks[b as int] == bv);
            lemma_instruction_total_mono(g.blocks, b + 1, g.blocks.len() as int);
            lemma_phi_total(g.blocks, b + 1);
        }
        let instructions = blocks[b].instructions();
        let mut i: usize = 0;
        while i < instructions.len()
            invariant
                instructions_view(instructions@) == bv.instructions,
                0 <= i <= instructions.len(),
                count == phi_total(g.blocks, b as int) + phi_count_in(bv.instructions, i as int),
                phi_total(g.blocks, b + 1) <= usize::MAX,
                0 <= b < g.blocks.len(),
                g.blocks[b as int] == bv,
            decreases instructions.len() - i,
        {
            proof {
                assert(bv.instructions[i as int] == instructions@[i as int]@);
                lemma_phi_count_in(bv.instructions, i + 1);
                lemma_phi_count_mono(bv.instructions, i + 1, bv.instructions.len() as int);
            }
            if let Instruction::Phi { .. } = &instructions[i] {
                count = count + 1;
            }
            i = i + 1;
        }
        b = b + 1;
    }
    count
}

proof fn lemma_phi_count_mono(instructions: Seq<SpecInstruction>, n: int, m: int)
    requires
        0 <= n <= m <= instructions.len(),
    ensures
        phi_count_in(instructions, n) <= phi_count_in(instructions, m),
    decreases m - n,
{
    if n < m {
        lemma_phi_count_mono(instructions, n, m - 1);
    }
}


/// Graphs whose blocks hold as many instructions, block by block, hold as many in all.
proof fn lemma_total_pointwise(a: Seq<SpecBlock>, b: Seq<SpecBlock>, n: int)
    requires
        0 <= n <= a.len(),
        n <= b.len(),
        forall|k: int| 0 <= k < n ==> (#[trigger] a[k]).instructions.len() == b[k].instructions.len(),
    ensures
        instruction_total(a, n) == instruction_total(b, n),
    decreases n,
{
    if n > 0 {
        lemma_total_pointwise(a, b, n - 1);
    }
}

/// Pruning never adds instructions.
proof fn lemma_keep_total(blocks: Seq<SpecBlock>, keep: Set<BlockId>)
    ensures
        instruction_total(
            crate::cfg::keep_blocks(blocks, keep),
            crate::cfg::keep_blocks(blocks, keep).len() as int,
        ) <= instruction_total(blocks, blocks.len() as int),
        crate::cfg::keep_blocks(blocks, keep).len() <= blocks.len(),
    decreases blocks.len(),
{
    if blocks.len() > 0 {
        let init = blocks.drop_last();
        let rest = crate::cfg::keep_blocks(init, keep);
        lemma_keep_total(init, keep);
        lemma_total_pointwise(blocks, init, init.len() as int);
        let kept = crate::cfg::keep_blocks(blocks, keep);
        if keep.contains(blocks.last().id) {
            lemma_total_pointwise(kept, rest, rest.len() as int);
        }
    }
}

/// What constant propagation and branch folding make of a graph, before pruning.
pub open spec fn propagated_spec(g: SpecCfg) -> SpecCfg {
    let (values, executable) = analysis_spec(g);
    fold_spec(rewrite_spec(g, values, executable), values, executable)
}

/// The optimized graph, with the instructions and the phis dead-code elimination removed:
/// propagation, branch folding, pruning, phi simplification, then dead-code elimination.
pub open spec fn optimize_spec(g: SpecCfg) -> (SpecCfg, nat, nat) {
    dce_spec(simplify_spec(crate::cfg::prune_spec(propagated_spec(g))))
}

/// What the optimizer did to a graph.
#[derive(Debug, Clone, Copy, PartialEq, Eq, Structural)]
pub struct CfgOptimizationStats {
    pub blocks_before: usize,
    pub blocks_after: usize,
    pub instructions_before: usize,
    pub instructions_after: usize,
    pub phis_before: usize,
    pub phis_after: usize,
    pub branches_folded: usize,
    pub constants_propagated: usize,
    pub phis_eliminated: usize,
    pub dead_instructions_removed: usize,
}

impl Default for CfgOptimizationStats {
    fn default() -> (stats: Self)
        ensures
            stats == (CfgOptimizationStats {
                blocks_before: 0,
                blocks_after: 0,
                instructions_before: 0,
                instructions_after: 0,
                phis_before: 0,
                phis_after: 0,
                branches_folded: 0,
                constants_propagated: 0,
                phis_eliminated: 0,
                dead_instructions_removed: 0,
            }),
    {
        CfgOptimizationStats {
            blocks_before: 0,
            blocks_after: 0,
            instructions_before: 0,
            instructions_after: 0,
            phis_before: 0,
            phis_after: 0,
            branches_folded: 0,
            constants_propagated: 0,
            phis_eliminated: 0,
            dead_instructions_removed: 0,
        }
    }
}

impl CfgOptimizationStats {
    /// The blocks removed and the blocks there were: the reduction is their ratio.
    pub fn block_reduction(&self) -> (ratio: (usize, usize))
        requires
            self.blocks_after <= self.blocks_before,
        ensures
            ratio.0 == self.blocks_before - self.blocks_after,
            ratio.1 == self.blocks_before,
    {
        (self.blocks_before - self.blocks_after, self.blocks_before)
    }

    /// The instructions removed and the instructions there were: the reduction is their ratio.
    pub fn instruction_reduction(&self) -> (ratio: (usize, usize))
        requires
            self.instructions_after <= self.instructions_before,
        ensures
            ratio.0 == self.instructions_before - self.instructions_after,
            ratio.1 == self.instructions_before,
    {
        (self.instructions_before - self.instructions_after, self.instructions_before)
    }
}

/// The CFG optimizer.
pub struct CfgOptimizer;

impl CfgOptimizer {
    /// Whether the graph is small enough for `optimize`: its instructions and the operands they
    /// and the terminators read, counted together, fit in a `usize`.
    pub fn can_optimize(graph: &ControlFlowGraph) -> (ok: bool)
        ensures
            ok == (graph_size(graph@) <= usize::MAX),
    {
        let ghost g = graph@;
        let ghost n = g.blocks.len() as int;
        let blocks = graph.blocks();
        proof {
            lemma_instruction_total_mono(g.blocks, 0, n);
            lemma_operand_total_mono(g.blocks, 0, n);
        }
        let mut total: usize = 0;
        let mut i: usize = 0;
        while i < blocks.len()
            invariant
                g == graph@,
                blocks_view(blocks@) == g.blocks,
                n == blocks@.len(),
                0 <= i <= blocks.len(),
                total == instruction_total(g.blocks, i as int) + operand_total(g.blocks, i as int),
            decreases blocks.len() - i,
        {
            let block = &blocks[i];
            let ghost b = g.blocks[i as int];
            proof {
                assert(b == block@);
                lemma_instruction_total_mono(g.blocks, i + 1, n);
                lemma_operand_total_mono(g.blocks, i + 1, n);
                lemma_instruction_operands_mono(b.instructions, 0, b.instructions.len() as int);
            }
            let instructions = block.instructions();
            let count = instructions.len();
            proof {
                assert(instruction_total(g.blocks, i + 1) == instruction_total(g.blocks, i as int)
                    + count);
                assert(operand_total(g.blocks, i + 1) == operand_total(g.blocks, i as int)
                    + block_operands(b));
            }
            if total > usize::MAX - count {
                assert(instruction_total(g.blocks, i + 1) <= instruction_total(g.blocks, n));
                assert(operand_total(g.blocks, i as int) <= operand_total(g.blocks, i + 1));
                assert(operand_total(g.blocks, i + 1) <= operand_total(g.blocks, n));
                assert(graph_size(g) >= total + count);
                return false;
            }
            total = total + count;
            let mut j: usize = 0;
            while j < instructions.len()
                invariant
                    g == graph@,
                    n == g.blocks.len(),
                    instructions_view(instructions@) == b.instructions,
                    0 <= j <= instructions.len(),
                    total == instruction_total(g.blocks, i + 1) + operand_total(g.blocks, i as int)
                        + instruction_operands(b.instructions, j as int),
                    instruction_total(g.blocks, i + 1) + operand_total(g.blocks, i as int)
                        + instruction_operands(b.instructions, b.instructions.len() as int) <= graph_size(g),
                decreases instructions.len() - j,
            {
                proof {
                    assert(b.instructions[j as int] == instructions@[j as int]@);
                    lemma_instruction_operands_mono(b.instructions, j + 1, b.instructions.len() as int);
                }
                let operands = match &instructions[j] {
                    Instruction::Binary { .. } => 2,
                    Instruction::Bind { .. } => 1,
                    Instruction::Phi { incomings, .. } => incomings.len(),
                };
                assert(instruction_operands(b.instructions, j + 1) == instruction_operands(
                    b.instructions,
                    j as int,
                ) + operands);
                if total > usize::MAX - operands {
                    return false;
                }
                total = total + operands;
                j = j + 1;
            }
            let reads: usize = match block.terminator() {
                Some(Terminator::Return(_)) => 1,
                Some(Terminator::Branch { .. }) => 1,
                _ => 0,
            };
            assert(reads == terminator_operand_count(b.terminator));
            if total > usize::MAX - reads {
                return false;
            }
            total = total + reads;
            i = i + 1;
        }
        true
    }

    /// Optimizes a copy of the graph: sparse conditional constant propagation, propagation of
    /// the constants found, folding of branches on constants, pruning of unreachable blocks, phi
    /// simplification and dead-code elimination; returns it with what was done.
    pub fn optimize(graph: &ControlFlowGraph) -> (result: (ControlFlowGraph, CfgOptimizationStats))
        requires
            graph_size(graph@) <= usize::MAX,
        ensures
            result.0@ == optimize_spec(graph@).0,
            result.1.blocks_before == graph@.blocks.len(),
            result.1.blocks_after == result.0@.blocks.len(),
            result.1.instructions_before == instruction_total(graph@.blocks, graph@.blocks.len() as int),
            result.1.instructions_after == instruction_total(result.0@.blocks, result.0@.blocks.len() as int),
            result.1.phis_before == phi_total(graph@.blocks, graph@.blocks.len() as int),
            result.1.phis_after == phi_total(result.0@.blocks, result.0@.blocks.len() as int),
            result.1.constants_propagated == rewritten_in_blocks(
                graph@.blocks,
                graph@.blocks.len() as int,
                analysis_spec(graph@).0,
                analysis_spec(graph@).1,
            ),
            result.1.branches_folded == folded_count(
                rewrite_spec(graph@, analysis_spec(graph@).0, analysis_spec(graph@).1).blocks,
                graph@.blocks.len() as int,
                analysis_spec(graph@).0,
                analysis_spec(graph@).1,
            ),
            result.1.dead_instructions_removed == optimize_spec(graph@).1,
            result.1.phis_eliminated == optimize_spec(graph@).2,
            result.1.instructions_after <= result.1.instructions_before,
            result.1.blocks_after <= result.1.blocks_before,
    {
        let ghost g = graph@;
        let mut graph = graph.clone();
        let blocks_before = graph.blocks().len();
        let instructions_before = instruction_count(&graph);
        let phis_before = phi_count(&graph);
        let (values, executable) = analyze(&graph);
        let constants_propagated = rewrite_operands(&mut graph, &values, &executable);
        let ghost g1 = graph@;
        proof {
            lemma_total_pointwise(g.blocks, g1.blocks, g.blocks.len() as int);
        }
        let branches_folded = fold_branches(&mut graph, &values, &executable);
        let ghost g2 = graph@;
        proof {
            lemma_total_pointwise(g1.blocks, g2.blocks, g1.blocks.len() as int);
        }
        graph.prune_unreachable();
        let ghost g3 = graph@;
        proof {
            lemma_keep_total(g2.blocks, crate::cfg::reachable_set(g2));
        }
        simplify_phis(&mut graph);
        let ghost g4 = graph@;
        proof {
            lemma_total_pointwise(g3.blocks, g4.blocks, g3.blocks.len() as int);
        }
        let (dead_instructions_removed, phis_eliminated) = eliminate_dead_code(&mut graph);
        proof {
            lemma_dce_from(g4, instruction_total(g4.blocks, g4.blocks.len() as int) + 1);
            let (h, _, _) = dce_spec(g4);
            assert(h.blocks.len() == g4.blocks.len()) by {
                lemma_dce_blocks_len(g4, instruction_total(g4.blocks, g4.blocks.len() as int) + 1);
            }
        }
        let stats = CfgOptimizationStats {
            blocks_before,
            blocks_after: graph.blocks().len(),
            instructions_before,
            instructions_after: instruction_count(&graph),
            phis_before,
            phis_after: phi_count(&graph),
            branches_folded,
            constants_propagated,
            phis_eliminated,
            dead_instructions_removed,
        };
        (graph, stats)
    }
}

/// Dead-code elimination keeps every block.
proof fn lemma_dce_blocks_len(g: SpecCfg, fuel: nat)
    ensures
        dce_from(g, fuel).0.blocks.len() == g.blocks.len(),
    decreases fuel,
{
    let used = used_values(g);
    let removed = dead_total(g.blocks, g.blocks.len() as int, used);
    if fuel > 0 && removed > 0 {
        lemma_dce_blocks_len(dce_pass_spec(g), (fuel - 1) as nat);
    }
}

} // verus!
