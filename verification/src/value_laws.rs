use vstd::prelude::*;

use crate::build_laws::{
    assign_rank, build_inv, built_graph, frame, lemma_expr_step,
    lemma_frame_trans, lemma_instruction_step, lemma_new_block_step, lemma_rank_current, lemma_rank_new_block,
    lemma_rank_terminator, lemma_ranked_same_terminators,
    lemma_statement_inv, lemma_statements_inv, lemma_terminator_step, phi_free, phi_sound, phis_sound,
    rank_statement, rank_statements, ranked, sole_jumps, targets, targets_in_range,
};
use crate::cfg::{
    branch_live, branch_operand, build_expr_spec, build_statement_spec, build_statements_spec, define_spec,
    find_block, fits, if_states, initial_build_state, lemma_build_expr_grows, lemma_build_statement_grows,
    lemma_build_statements_grows, lemma_definition_index, lemma_entry_reachable, lemma_find_block_from,
    lemma_if_chain, lemma_merge_grows, lemma_merge_step_grows, lemma_reachable_step, lookup_definition,
    merge_spec, merge_step, prune_spec, reachable_set, reachable_spec, successors_spec, terminator_targets,
    with_current, with_definitions, with_instruction, with_new_block, with_next_value, with_terminator, BlockId,
    BuildState, Operand, SpecBlock, SpecCfg, SpecInstruction, Terminator, ValueId,
};
use crate::cfg_opt_laws::lemma_find_kept;
use crate::cfg_runtime::{
    binary_spec, block_values, execute_spec, phi_input, phi_results, record, resolve_spec, run_instructions,
    run_spec, step_limit, CfgRuntimeError,
};
use crate::types::{SpecTypedStatement, SymbolId, TypedExpr};

verus! {

/// The values an instruction computes.
pub open spec fn computed_by(instruction: SpecInstruction) -> Set<ValueId> {
    match instruction {
        SpecInstruction::Binary { result, .. } => set![result],
        SpecInstruction::Phi { result, .. } => set![result],
        SpecInstruction::Bind { .. } => Set::empty(),
    }
}

/// The values a sequence of instructions computes.
pub open spec fn computed(instructions: Seq<SpecInstruction>) -> Set<ValueId>
    decreases instructions.len(),
{
    if instructions.len() == 0 {
        Set::empty()
    } else {
        computed(instructions.drop_last()).union(computed_by(instructions.last()))
    }
}

/// Whether an operand is a constant or one of the `known` values.
pub open spec fn operand_in(operand: Operand, known: Set<ValueId>) -> bool {
    match operand {
        Operand::Value(id) => known.contains(id),
        Operand::Constant(_) => true,
    }
}

/// Whether every binary instruction of a block reads only values of `avail` or values computed
/// earlier in the block.
pub open spec fn binaries_read(b: SpecBlock, avail: Set<ValueId>) -> bool {
    forall|k: int|
        0 <= k < b.instructions.len() && (#[trigger] b.instructions[k]) is Binary ==> {
            let known = avail.union(computed(b.instructions.subrange(0, k)));
            &&& operand_in(b.instructions[k]->Binary_left, known)
            &&& operand_in(b.instructions[k]->Binary_right, known)
        }
}

/// Whether a terminator reads only `known` values.
pub open spec fn terminator_reads(terminator: Option<Terminator>, known: Set<ValueId>) -> bool {
    match terminator {
        Some(Terminator::Return(value)) => operand_in(value, known),
        Some(Terminator::Branch { condition, .. }) => operand_in(condition, known),
        _ => true,
    }
}

/// Whether every phi of a block reads, on the edge from the block at position `p`, only `known`
/// values.
pub open spec fn phis_read(b: SpecBlock, p: int, known: Set<ValueId>) -> bool {
    forall|k: int, j: int|
        #![trigger b.instructions[k]->Phi_incomings[j]]
        0 <= k < b.instructions.len() && b.instructions[k] is Phi && 0 <= j
            < b.instructions[k]->Phi_incomings.len() && b.instructions[k]->Phi_incomings[j].0 as int == p
            ==> operand_in(b.instructions[k]->Phi_incomings[j].1, known)
}

/// The values known on leaving the block at position `m`: those available on entry and those it
/// computes.
pub open spec fn known_at(blocks: Seq<SpecBlock>, avail: Seq<Set<ValueId>>, m: int) -> Set<ValueId> {
    avail[m].union(computed(blocks[m].instructions))
}

/// Whether the block at position `m` reads only values available on entry or computed before.
pub open spec fn block_reads_ok(blocks: Seq<SpecBlock>, avail: Seq<Set<ValueId>>, m: int) -> bool {
    &&& binaries_read(blocks[m], avail[m])
    &&& terminator_reads(blocks[m].terminator, known_at(blocks, avail, m))
}

/// Whether the edge from position `p` to position `m`, if there is one, brings every value
/// available at `m` and every value the phis of `m` read on it.
pub open spec fn edge_reads_ok(blocks: Seq<SpecBlock>, avail: Seq<Set<ValueId>>, p: int, m: int) -> bool {
    targets(blocks[p], m) ==> {
        &&& avail[m].subset_of(known_at(blocks, avail, p))
        &&& phis_read(blocks[m], p, known_at(blocks, avail, p))
    }
}

/// Whether `avail` gives, for each block, a set of values available on entry to it such that
/// every block reads only available values or values it computed before, and every edge brings
/// what its target needs.
pub open spec fn reads_available(blocks: Seq<SpecBlock>, avail: Seq<Set<ValueId>>) -> bool {
    &&& avail.len() == blocks.len()
    &&& forall|m: int| 0 <= m < blocks.len() ==> #[trigger] block_reads_ok(blocks, avail, m)
    &&& forall|p: int, m: int|
        0 <= p < blocks.len() && 0 <= m < blocks.len() ==> #[trigger] edge_reads_ok(blocks, avail, p, m)
}

/// The values known in the block being filled.
pub open spec fn current_known(s: BuildState, avail: Seq<Set<ValueId>>) -> Set<ValueId> {
    known_at(s.blocks, avail, s.current)
}

/// Whether every symbol stands for a constant or a value known in the block being filled.
pub open spec fn definitions_known(s: BuildState, avail: Seq<Set<ValueId>>) -> bool {
    forall|i: int| 0 <= i < s.definitions.len() ==> operand_in(#[trigger] s.definitions[i].1, current_known(s, avail))
}

/// The value ids from `a` up to, not including, `b`.
pub open spec fn fresh_between(a: int, b: int) -> Set<ValueId> {
    Set::new(|v: ValueId| a <= v < b)
}

pub(crate) proof fn lemma_computed_push(instructions: Seq<SpecInstruction>, x: SpecInstruction)
    ensures
        computed(instructions.push(x)) == computed(instructions).union(computed_by(x)),
        forall|k: int| 0 <= k <= instructions.len() ==> #[trigger] instructions.push(x).subrange(0, k)
            == instructions.subrange(0, k),
{
    assert(instructions.push(x).drop_last() =~= instructions);
    assert forall|k: int| 0 <= k <= instructions.len() implies #[trigger] instructions.push(x).subrange(0, k)
        == instructions.subrange(0, k) by {
        assert(instructions.push(x).subrange(0, k) =~= instructions.subrange(0, k));
    }
}

/// Adding an instruction to the block being filled, when what it reads is known there.
proof fn lemma_known_instruction(s: BuildState, avail: Seq<Set<ValueId>>, instruction: SpecInstruction)
    requires
        build_inv(s),
        reads_available(s.blocks, avail),
        s.blocks[s.current].terminator is None,
        instruction is Binary ==> operand_in(instruction->Binary_left, current_known(s, avail)) && operand_in(
            instruction->Binary_right,
            current_known(s, avail),
        ),
        instruction is Phi ==> forall|j: int|
            0 <= j < instruction->Phi_incomings.len() && 0 <= ((#[trigger] instruction->Phi_incomings[j]).0 as int)
                && ((instruction->Phi_incomings[j].0 as int) < s.blocks.len()) && targets(s.blocks[instruction->Phi_incomings[j].0 as int], s.current)
                ==> operand_in(
                instruction->Phi_incomings[j].1,
                known_at(s.blocks, avail, instruction->Phi_incomings[j].0 as int),
            ),
    ensures
        reads_available(with_instruction(s, instruction).blocks, avail),
        current_known(with_instruction(s, instruction), avail) == current_known(s, avail).union(
            computed_by(instruction),
        ),
        forall|m: int| 0 <= m < s.blocks.len() && m != s.current ==> #[trigger] known_at(
            with_instruction(s, instruction).blocks,
            avail,
            m,
        ) == known_at(s.blocks, avail, m),
{
    let t = with_instruction(s, instruction);
    let c = s.current;
    let old_instructions = s.blocks[c].instructions;
    lemma_computed_push(old_instructions, instruction);
    assert(t.blocks[c].instructions == old_instructions.push(instruction));
    assert(current_known(t, avail) =~= current_known(s, avail).union(computed_by(instruction)));
    assert forall|m: int| 0 <= m < t.blocks.len() implies #[trigger] block_reads_ok(t.blocks, avail, m) by {
        assert(block_reads_ok(s.blocks, avail, m));
        if m == c {
            let b = t.blocks[c];
            assert forall|k: int| 0 <= k < b.instructions.len() && (#[trigger] b.instructions[k]) is Binary implies {
                let known = avail[c].union(computed(b.instructions.subrange(0, k)));
                &&& operand_in(b.instructions[k]->Binary_left, known)
                &&& operand_in(b.instructions[k]->Binary_right, known)
            } by {
                if k < old_instructions.len() {
                    assert(b.instructions[k] == old_instructions[k]);
                } else {
                    assert(b.instructions.subrange(0, k) == old_instructions.subrange(0, k));
                    assert(old_instructions.subrange(0, k) =~= old_instructions);
                }
            }
        }
    }
    assert forall|p: int, m: int| 0 <= p < t.blocks.len() && 0 <= m < t.blocks.len() implies #[trigger] edge_reads_ok(
        t.blocks,
        avail,
        p,
        m,
    ) by {
        assert(edge_reads_ok(s.blocks, avail, p, m));
        assert(t.blocks[p].terminator == s.blocks[p].terminator);
        if targets(t.blocks[p], m) {
            assert(targets(s.blocks[p], m));
            assert(p != c);
            assert(known_at(t.blocks, avail, p) == known_at(s.blocks, avail, p));
            if m == c {
                let b = t.blocks[c];
                assert forall|k: int, j: int|
                    0 <= k < b.instructions.len() && b.instructions[k] is Phi && 0 <= j
                        < b.instructions[k]->Phi_incomings.len() && #[trigger] b.instructions[k]->Phi_incomings[j].0
                        as int == p implies operand_in(
                    b.instructions[k]->Phi_incomings[j].1,
                    known_at(t.blocks, avail, p),
                ) by {
                    if k < old_instructions.len() {
                        assert(b.instructions[k] == old_instructions[k]);
                        assert(s.blocks[c].instructions[k]->Phi_incomings[j] == b.instructions[k]->Phi_incomings[j]);
                    } else {
                        assert(b.instructions[k] == instruction);
                        assert(instruction->Phi_incomings[j].0 as int == p);
                    }
                }
            }
        }
    }
}

/// Adding an empty block whose entry makes `a` available.
proof fn lemma_known_new_block(s: BuildState, avail: Seq<Set<ValueId>>, a: Set<ValueId>)
    requires
        build_inv(s),
        reads_available(s.blocks, avail),
        s.blocks.len() + 1 <= u32::MAX + 1,
    ensures
        reads_available(with_new_block(s).blocks, avail.push(a)),
        known_at(with_new_block(s).blocks, avail.push(a), s.blocks.len() as int) == a,
        forall|m: int| 0 <= m < s.blocks.len() ==> #[trigger] known_at(with_new_block(s).blocks, avail.push(a), m)
            == known_at(s.blocks, avail, m),
{
    let t = with_new_block(s);
    let av = avail.push(a);
    let n = s.blocks.len() as int;
    assert(computed(Seq::<SpecInstruction>::empty()) =~= Set::<ValueId>::empty());
    assert(t.blocks[n].instructions =~= Seq::<SpecInstruction>::empty());
    assert(known_at(t.blocks, av, n) =~= a);
    assert forall|m: int| 0 <= m < n implies #[trigger] known_at(t.blocks, av, m) == known_at(s.blocks, avail, m) by {
        assert(t.blocks[m] == s.blocks[m]);
        assert(av[m] == avail[m]);
    }
    assert forall|m: int| 0 <= m < t.blocks.len() implies #[trigger] block_reads_ok(t.blocks, av, m) by {
        if m < n {
            assert(block_reads_ok(s.blocks, avail, m));
            assert(t.blocks[m] == s.blocks[m]);
            assert(known_at(t.blocks, av, m) == known_at(s.blocks, avail, m));
        }
    }
    assert forall|p: int, m: int| 0 <= p < t.blocks.len() && 0 <= m < t.blocks.len() implies #[trigger] edge_reads_ok(
        t.blocks,
        av,
        p,
        m,
    ) by {
        if targets(t.blocks[p], m) {
            assert(p < n) by {
                if p == n {
                    assert(terminator_targets(t.blocks[p].terminator) =~= Seq::<BlockId>::empty());
                }
            }
            assert(t.blocks[p] == s.blocks[p]);
            assert(terminator_targets(s.blocks[p].terminator).contains(m as BlockId));
            assert(m < n);
            assert(edge_reads_ok(s.blocks, avail, p, m));
            assert(t.blocks[m] == s.blocks[m]);
            assert(known_at(t.blocks, av, p) == known_at(s.blocks, avail, p));
        }
    }
}

/// Ending the block being filled with a terminator that reads known values, to blocks whose
/// needs the block being filled meets.
proof fn lemma_known_terminator(s: BuildState, avail: Seq<Set<ValueId>>, terminator: Terminator)
    requires
        build_inv(s),
        reads_available(s.blocks, avail),
        s.blocks[s.current].terminator is None,
        terminator_reads(Some(terminator), current_known(s, avail)),
        forall|x: int|
            0 <= x < s.blocks.len() && #[trigger] terminator_targets(Some(terminator)).contains(x as BlockId)
                ==> avail[x].subset_of(current_known(s, avail)) && phis_read(
                s.blocks[x],
                s.current,
                current_known(s, avail),
            ),
    ensures
        reads_available(with_terminator(s, s.current, terminator).blocks, avail),
        forall|m: int| 0 <= m < s.blocks.len() ==> #[trigger] known_at(
            with_terminator(s, s.current, terminator).blocks,
            avail,
            m,
        ) == known_at(s.blocks, avail, m),
{
    let t = with_terminator(s, s.current, terminator);
    let c = s.current;
    assert forall|m: int| 0 <= m < s.blocks.len() implies #[trigger] known_at(t.blocks, avail, m) == known_at(
        s.blocks,
        avail,
        m,
    ) by {
        assert(t.blocks[m].instructions == s.blocks[m].instructions);
    }
    assert forall|m: int| 0 <= m < t.blocks.len() implies #[trigger] block_reads_ok(t.blocks, avail, m) by {
        assert(block_reads_ok(s.blocks, avail, m));
        assert(known_at(t.blocks, avail, m) == known_at(s.blocks, avail, m));
    }
    assert forall|p: int, m: int| 0 <= p < t.blocks.len() && 0 <= m < t.blocks.len() implies #[trigger] edge_reads_ok(
        t.blocks,
        avail,
        p,
        m,
    ) by {
        assert(edge_reads_ok(s.blocks, avail, p, m));
        assert(known_at(t.blocks, avail, p) == known_at(s.blocks, avail, p));
        if targets(t.blocks[p], m) {
            if p == c {
                assert(terminator_targets(Some(terminator)).contains(m as BlockId));
                assert(t.blocks[m].instructions == s.blocks[m].instructions);
            } else {
                assert(t.blocks[p] == s.blocks[p]);
                assert(t.blocks[m].instructions == s.blocks[m].instructions);
            }
        }
    }
}

/// Lowering an expression into the block being filled: everything it reads is known there, and
/// the values it adds are fresh.
proof fn lemma_known_expr(s: BuildState, avail: Seq<Set<ValueId>>, expr: TypedExpr)
    requires
        build_inv(s),
        reads_available(s.blocks, avail),
        s.blocks[s.current].terminator is None,
        definitions_known(s, avail),
        build_expr_spec(s, expr).0.next_value <= u32::MAX + 1,
    ensures
        ({
            let (t, op) = build_expr_spec(s, expr);
            &&& reads_available(t.blocks, avail)
            &&& definitions_known(t, avail)
            &&& operand_in(op, current_known(t, avail))
            &&& current_known(s, avail).subset_of(current_known(t, avail))
            &&& current_known(t, avail).subset_of(
                current_known(s, avail).union(fresh_between(s.next_value, t.next_value)),
            )
            &&& forall|m: int| 0 <= m < s.blocks.len() && m != s.current ==> #[trigger] known_at(t.blocks, avail, m)
                == known_at(s.blocks, avail, m)
            &&& t.blocks[t.current].terminator is None
        }),
    decreases expr,
{
    assert(frame(s, s));
    lemma_expr_step(s, s, expr);
    lemma_build_expr_grows(s, expr);
    match expr {
        TypedExpr::Symbol { symbol_id, .. } => {
            lemma_definition_index(s.definitions, symbol_id);
        },
        TypedExpr::Binary { left, op, right, .. } => {
            lemma_expr_step(s, s, *left);
            lemma_build_expr_grows(s, *left);
            let (s1, l) = build_expr_spec(s, *left);
            lemma_build_expr_grows(s1, *right);
            lemma_known_expr(s, avail, *left);
            lemma_known_expr(s1, avail, *right);
            let (s2, r) = build_expr_spec(s1, *right);
            let s3 = with_next_value(s2, s2.next_value + 1);
            let instruction = SpecInstruction::Binary { result: s2.next_value as ValueId, op, left: l, right: r };
            assert(s3.blocks == s2.blocks);
            lemma_expr_step(s, s1, *right);
            lemma_known_instruction(s3, avail, instruction);
            let t = with_instruction(s3, instruction);
            assert(computed_by(instruction) == set![s2.next_value as ValueId]);
            assert(s.next_value <= s1.next_value <= s2.next_value);
            assert(current_known(s3, avail) == current_known(s2, avail));
            assert forall|v: ValueId| current_known(t, avail).contains(v) implies current_known(s, avail).union(
                fresh_between(s.next_value, t.next_value),
            ).contains(v) by {
                if current_known(s2, avail).contains(v) {
                    if !current_known(s1, avail).contains(v) {
                        assert(fresh_between(s1.next_value, s2.next_value).contains(v));
                    } else if !current_known(s, avail).contains(v) {
                        assert(fresh_between(s.next_value, s1.next_value).contains(v));
                    }
                }
            }
            assert(current_known(t, avail).subset_of(
                current_known(s, avail).union(fresh_between(s.next_value, t.next_value)),
            ));
            assert forall|m: int| 0 <= m < s.blocks.len() && m != s.current implies #[trigger] known_at(
                t.blocks,
                avail,
                m,
            ) == known_at(s.blocks, avail, m) by {
                assert(known_at(s1.blocks, avail, m) == known_at(s.blocks, avail, m));
                assert(known_at(s2.blocks, avail, m) == known_at(s1.blocks, avail, m));
                assert(known_at(t.blocks, avail, m) == known_at(s3.blocks, avail, m));
            }
        },
        _ => {},
    }
}

/// What a symbol stands for in definitions whose operands are all known is known.
proof fn lemma_branch_operand_known(definitions: Seq<(SymbolId, Operand)>, symbol: SymbolId, known: Set<ValueId>)
    requires
        forall|i: int| 0 <= i < definitions.len() ==> operand_in(#[trigger] definitions[i].1, known),
    ensures
        operand_in(branch_operand(definitions, symbol), known),
{
    lemma_definition_index(definitions, symbol);
}

/// Whether the definitions' operands are all known.
pub open spec fn operands_known(definitions: Seq<(SymbolId, Operand)>, known: Set<ValueId>) -> bool {
    forall|i: int| 0 <= i < definitions.len() ==> operand_in(#[trigger] definitions[i].1, known)
}

/// What the merge of two branches needs: each live branch ends in a block whose definitions are
/// known there; with both live, they end in the only two blocks that jump to the merge block,
/// and what both know beyond `shared` is fresh in disjoint ranges; with one live, what it knows
/// is known at the merge block; with none, the outer definitions are.
pub open spec fn merge_ready(
    s: BuildState,
    avail: Seq<Set<ValueId>>,
    outer: Seq<(SymbolId, Operand)>,
    k: int,
    then_definitions: Seq<(SymbolId, Operand)>,
    else_definitions: Seq<(SymbolId, Operand)>,
    then_end: int,
    else_end: int,
    then_live: bool,
    else_live: bool,
    shared: Set<ValueId>,
    then_fresh: Set<ValueId>,
    else_fresh: Set<ValueId>,
) -> bool {
    &&& then_live ==> 0 <= then_end < s.blocks.len() && then_end != s.current && operands_known(
        then_definitions,
        known_at(s.blocks, avail, then_end),
    )
    &&& else_live ==> 0 <= else_end < s.blocks.len() && else_end != s.current && operands_known(
        else_definitions,
        known_at(s.blocks, avail, else_end),
    )
    &&& then_live && else_live ==> {
        &&& sole_jumps(s.blocks, s.current, then_end, else_end)
        &&& known_at(s.blocks, avail, then_end).subset_of(shared.union(then_fresh))
        &&& known_at(s.blocks, avail, else_end).subset_of(shared.union(else_fresh))
        &&& then_fresh.disjoint(else_fresh)
        &&& shared.subset_of(current_known(s, avail))
    }
    &&& then_live && !else_live ==> known_at(s.blocks, avail, then_end).subset_of(current_known(s, avail))
    &&& !then_live && else_live ==> known_at(s.blocks, avail, else_end).subset_of(current_known(s, avail))
    &&& !then_live && !else_live ==> forall|j: int| k <= j < outer.len() ==> operand_in(
        #[trigger] outer[j].1,
        current_known(s, avail),
    )
}

proof fn lemma_known_merge_step(
    s: BuildState,
    avail: Seq<Set<ValueId>>,
    outer: Seq<(SymbolId, Operand)>,
    k: int,
    then_definitions: Seq<(SymbolId, Operand)>,
    else_definitions: Seq<(SymbolId, Operand)>,
    then_end: int,
    else_end: int,
    then_live: bool,
    else_live: bool,
    shared: Set<ValueId>,
    then_fresh: Set<ValueId>,
    else_fresh: Set<ValueId>,
)
    requires
        0 <= k < outer.len(),
        build_inv(s),
        reads_available(s.blocks, avail),
        s.blocks[s.current].terminator is None,
        definitions_known(s, avail),
        merge_step(s, outer[k].0, outer[k].1, then_definitions, else_definitions, then_end, else_end, then_live,
            else_live).next_value <= u32::MAX + 1,
        merge_ready(s, avail, outer, k, then_definitions, else_definitions, then_end, else_end, then_live,
            else_live, shared, then_fresh, else_fresh),
    ensures
        ({
            let t = merge_step(s, outer[k].0, outer[k].1, then_definitions, else_definitions, then_end, else_end,
                then_live, else_live);
            &&& build_inv(t)
            &&& reads_available(t.blocks, avail)
            &&& t.blocks[t.current].terminator is None
            &&& definitions_known(t, avail)
            &&& current_known(s, avail).subset_of(current_known(t, avail))
            &&& current_known(t, avail).subset_of(
                current_known(s, avail).union(fresh_between(s.next_value, t.next_value)),
            )
            &&& forall|m: int| 0 <= m < s.blocks.len() && m != s.current ==> #[trigger] known_at(t.blocks, avail, m)
                == known_at(s.blocks, avail, m)
            &&& merge_ready(t, avail, outer, k + 1, then_definitions, else_definitions, then_end, else_end,
                then_live, else_live, shared, then_fresh, else_fresh)
            &&& s.next_value <= t.next_value
            &&& t.blocks.len() == s.blocks.len()
            &&& crate::build_laws::same_terminators(s.blocks, t.blocks)
        }),
{
    let symbol = outer[k].0;
    let fallback = outer[k].1;
    let t_op = branch_operand(then_definitions, symbol);
    let e_op = branch_operand(else_definitions, symbol);
    if then_live {
        lemma_branch_operand_known(then_definitions, symbol, known_at(s.blocks, avail, then_end));
    }
    if else_live {
        lemma_branch_operand_known(else_definitions, symbol, known_at(s.blocks, avail, else_end));
    }
    let t = merge_step(s, symbol, fallback, then_definitions, else_definitions, then_end, else_end, then_live,
        else_live);
    assert(frame(s, s));
    if then_live && else_live && t_op != e_op {
        let s1 = with_next_value(s, s.next_value + 1);
        let incomings = seq![(then_end as BlockId, t_op), (else_end as BlockId, e_op)];
        let instruction = SpecInstruction::Phi { result: s.next_value as ValueId, symbol_id: symbol, incomings };
        assert(incomings[0].0 as int == then_end && incomings[1].0 as int == else_end);
        lemma_instruction_step(s, s1, instruction);
        lemma_known_instruction(s1, avail, instruction);
        let s2 = with_instruction(s1, instruction);
        assert(computed_by(instruction) == set![s.next_value as ValueId]);
        assert(t == with_definitions(s2, s2.definitions.push((symbol, Operand::Value(s.next_value as ValueId)))));
        assert(current_known(t, avail) == current_known(s2, avail));
        assert(fresh_between(s.next_value, t.next_value).contains(s.next_value as ValueId));
        assert forall|i: int| 0 <= i < t.definitions.len() implies operand_in(
            #[trigger] t.definitions[i].1,
            current_known(t, avail),
        ) by {
            if i < s.definitions.len() {
                assert(t.definitions[i] == s.definitions[i]);
            }
        }
        assert(t.blocks[t.current].instructions == s.blocks[s.current].instructions.push(instruction));
        assert forall|i: int| 0 <= i < t.blocks.len() implies (#[trigger] s.blocks[i]).terminator == t.blocks[i].terminator by {}
        crate::build_laws::lemma_same_terminators_sound(s.blocks, t.blocks, t.current, then_end, else_end);
    } else {
        let pushed = if then_live && else_live { t_op } else if then_live { t_op } else if else_live { e_op } else {
            fallback
        };
        assert(t == with_definitions(s, s.definitions.push((symbol, pushed))));
        if then_live && else_live {
            if let Operand::Value(v) = t_op {
                assert(known_at(s.blocks, avail, then_end).contains(v));
                assert(known_at(s.blocks, avail, else_end).contains(v));
                assert(shared.contains(v));
            }
        }
        assert forall|i: int| 0 <= i < t.definitions.len() implies operand_in(
            #[trigger] t.definitions[i].1,
            current_known(t, avail),
        ) by {
            if i < s.definitions.len() {
                assert(t.definitions[i] == s.definitions[i]);
            }
        }
    }
}

proof fn lemma_known_merge(
    s: BuildState,
    avail: Seq<Set<ValueId>>,
    outer: Seq<(SymbolId, Operand)>,
    k: int,
    then_definitions: Seq<(SymbolId, Operand)>,
    else_definitions: Seq<(SymbolId, Operand)>,
    then_end: int,
    else_end: int,
    then_live: bool,
    else_live: bool,
    shared: Set<ValueId>,
    then_fresh: Set<ValueId>,
    else_fresh: Set<ValueId>,
)
    requires
        0 <= k,
        build_inv(s),
        reads_available(s.blocks, avail),
        s.blocks[s.current].terminator is None,
        definitions_known(s, avail),
        merge_spec(s, outer, k, then_definitions, else_definitions, then_end, else_end, then_live, else_live).next_value
            <= u32::MAX + 1,
        merge_ready(s, avail, outer, k, then_definitions, else_definitions, then_end, else_end, then_live,
            else_live, shared, then_fresh, else_fresh),
    ensures
        ({
            let t = merge_spec(s, outer, k, then_definitions, else_definitions, then_end, else_end, then_live,
                else_live);
            &&& reads_available(t.blocks, avail)
            &&& definitions_known(t, avail)
            &&& current_known(s, avail).subset_of(current_known(t, avail))
            &&& current_known(t, avail).subset_of(
                current_known(s, avail).union(fresh_between(s.next_value, t.next_value)),
            )
        }),
    decreases outer.len() - k,
{
    if k < outer.len() {
        let next = merge_step(s, outer[k].0, outer[k].1, then_definitions, else_definitions, then_end, else_end,
            then_live, else_live);
        lemma_merge_step_grows(s, outer[k].0, outer[k].1, then_definitions, else_definitions, then_end, else_end,
            then_live, else_live);
        lemma_merge_grows(next, outer, k + 1, then_definitions, else_definitions, then_end, else_end, then_live,
            else_live);
        lemma_known_merge_step(s, avail, outer, k, then_definitions, else_definitions, then_end, else_end,
            then_live, else_live, shared, then_fresh, else_fresh);
        lemma_known_merge(next, avail, outer, k + 1, then_definitions, else_definitions, then_end, else_end,
            then_live, else_live, shared, then_fresh, else_fresh);
        let t = merge_spec(next, outer, k + 1, then_definitions, else_definitions, then_end, else_end, then_live,
            else_live);
        assert forall|v: ValueId| current_known(t, avail).contains(v) implies current_known(s, avail).union(
            fresh_between(s.next_value, t.next_value),
        ).contains(v) by {
            if !current_known(next, avail).contains(v) {
                assert(fresh_between(next.next_value, t.next_value).contains(v));
            } else if !current_known(s, avail).contains(v) {
                assert(fresh_between(s.next_value, next.next_value).contains(v));
            }
        }
    }
}

/// Changing what is available on entry to an empty block without a terminator, to values every
/// block that jumps there knows.
proof fn lemma_known_reannotate(blocks: Seq<SpecBlock>, avail: Seq<Set<ValueId>>, m: int, a: Set<ValueId>)
    requires
        reads_available(blocks, avail),
        0 <= m < blocks.len(),
        blocks[m].instructions.len() == 0,
        blocks[m].terminator is None,
        forall|p: int| 0 <= p < blocks.len() && #[trigger] targets(blocks[p], m) ==> a.subset_of(
            known_at(blocks, avail, p),
        ),
    ensures
        reads_available(blocks, avail.update(m, a)),
        known_at(blocks, avail.update(m, a), m) == a,
        forall|q: int| 0 <= q < blocks.len() && q != m ==> #[trigger] known_at(blocks, avail.update(m, a), q)
            == known_at(blocks, avail, q),
{
    let av = avail.update(m, a);
    assert(blocks[m].instructions =~= Seq::<SpecInstruction>::empty());
    assert(computed(Seq::<SpecInstruction>::empty()) =~= Set::<ValueId>::empty());
    assert(known_at(blocks, av, m) =~= a);
    assert forall|q: int| 0 <= q < blocks.len() && q != m implies #[trigger] known_at(blocks, av, q) == known_at(
        blocks,
        avail,
        q,
    ) by {}
    assert forall|q: int| 0 <= q < blocks.len() implies #[trigger] block_reads_ok(blocks, av, q) by {
        assert(block_reads_ok(blocks, avail, q));
    }
    assert forall|p: int, q: int| 0 <= p < blocks.len() && 0 <= q < blocks.len() implies #[trigger] edge_reads_ok(
        blocks,
        av,
        p,
        q,
    ) by {
        assert(edge_reads_ok(blocks, avail, p, q));
        if targets(blocks[p], q) {
            assert(p != m) by {
                if p == m {
                    assert(terminator_targets(blocks[m].terminator) =~= Seq::<BlockId>::empty());
                }
            }
        }
    }
}

/// Defining a symbol as a known operand keeps every definition known.
proof fn lemma_define_known(s: BuildState, avail: Seq<Set<ValueId>>, symbol: SymbolId, op: Operand)
    requires
        definitions_known(s, avail),
        operand_in(op, current_known(s, avail)),
    ensures
        definitions_known(with_definitions(s, define_spec(s.definitions, symbol, op)), avail),
{
    lemma_definition_index(s.definitions, symbol);
    let t = with_definitions(s, define_spec(s.definitions, symbol, op));
    assert forall|i: int| 0 <= i < t.definitions.len() implies operand_in(
        #[trigger] t.definitions[i].1,
        current_known(t, avail),
    ) by {
        if i < s.definitions.len() && t.definitions[i] != s.definitions[i] {
            assert(t.definitions[i] == (symbol, op));
        }
    }
}

/// What lowering a statement keeps, given the annotation `avail` of the state it starts from.
pub open spec fn known_grows(
    s: BuildState,
    avail: Seq<Set<ValueId>>,
    t: BuildState,
    av: Seq<Set<ValueId>>,
) -> bool {
    &&& reads_available(t.blocks, av)
    &&& definitions_known(t, av)
    &&& forall|i: int| 0 <= i < s.blocks.len() ==> #[trigger] av[i] == avail[i]
    &&& current_known(s, avail).subset_of(current_known(t, av))
    &&& current_known(t, av).subset_of(current_known(s, avail).union(fresh_between(s.next_value, t.next_value)))
}

proof fn lemma_known_statements(
    s: BuildState,
    statements: Seq<SpecTypedStatement>,
    rk: (Map<int, nat>, nat),
    avail: Seq<Set<ValueId>>,
) -> (av: Seq<Set<ValueId>>)
    requires
        build_inv(s),
        ranked(s, rk),
        build_statements_spec(s, statements).blocks.len() <= u32::MAX + 1,
        build_statements_spec(s, statements).next_value <= u32::MAX + 1,
        reads_available(s.blocks, avail),
        definitions_known(s, avail),
    ensures
        known_grows(s, avail, build_statements_spec(s, statements), av),
    decreases statements, 2nat,
{
    if statements.len() == 0 || !(0 <= s.current < s.blocks.len()) || s.blocks[s.current].terminator is Some {
        avail
    } else {
        let rest = statements.subrange(1, statements.len() as int);
        lemma_build_statement_grows(s, statements[0]);
        let after = build_statement_spec(s, statements[0]);
        lemma_build_statements_grows(after, rest);
        let t = build_statements_spec(after, rest);
        lemma_statement_inv(s, statements[0], rk);
        let r1 = rank_statement(s, statements[0], rk);
        let av1 = lemma_known_statement(s, statements[0], rk, avail);
        let av2 = lemma_known_statements(after, rest, r1, av1);
        assert forall|i: int| 0 <= i < s.blocks.len() implies #[trigger] av2[i] == avail[i] by {
            assert(av1[i] == avail[i]);
        }
        assert forall|v: ValueId| current_known(t, av2).contains(v) implies current_known(s, avail).union(
            fresh_between(s.next_value, t.next_value),
        ).contains(v) by {
            if !current_known(after, av1).contains(v) {
                assert(fresh_between(after.next_value, t.next_value).contains(v));
            } else if !current_known(s, avail).contains(v) {
                assert(fresh_between(s.next_value, after.next_value).contains(v));
            }
        }
        av2
    }
}

proof fn lemma_known_statement(
    s: BuildState,
    statement: SpecTypedStatement,
    rk: (Map<int, nat>, nat),
    avail: Seq<Set<ValueId>>,
) -> (av: Seq<Set<ValueId>>)
    requires
        build_inv(s),
        s.blocks[s.current].terminator is None,
        ranked(s, rk),
        build_statement_spec(s, statement).blocks.len() <= u32::MAX + 1,
        build_statement_spec(s, statement).next_value <= u32::MAX + 1,
        reads_available(s.blocks, avail),
        definitions_known(s, avail),
    ensures
        known_grows(s, avail, build_statement_spec(s, statement), av),
    decreases statement, 1nat,
{
    assert(frame(s, s));
    match statement {
        SpecTypedStatement::Let { symbol, value } => {
            lemma_known_let(s, avail, symbol.spec_id(), value);
            avail
        },
        SpecTypedStatement::Assign { symbol, value } => {
            lemma_known_let(s, avail, symbol.spec_id(), value);
            avail
        },
        SpecTypedStatement::Return { value } => {
            lemma_expr_step(s, s, value);
            lemma_known_expr(s, avail, value);
            let (s1, op) = build_expr_spec(s, value);
            assert(terminator_targets(Some(Terminator::Return(op))) =~= Seq::<BlockId>::empty());
            lemma_known_terminator(s1, avail, Terminator::Return(op));
            let t = with_terminator(s1, s1.current, Terminator::Return(op));
            assert(current_known(t, avail) == current_known(s1, avail));
            assert forall|i: int| 0 <= i < t.definitions.len() implies operand_in(
                #[trigger] t.definitions[i].1,
                current_known(t, avail),
            ) by {
                assert(t.definitions[i] == s1.definitions[i]);
            }
            avail
        },
        SpecTypedStatement::If { .. } => {
            lemma_known_if(s, statement, rk, avail)
        },
    }
}

/// Lowering `let` or an assignment: the value's operand becomes what the symbol stands for.
proof fn lemma_known_let(s: BuildState, avail: Seq<Set<ValueId>>, symbol: SymbolId, value: TypedExpr)
    requires
        build_inv(s),
        s.blocks[s.current].terminator is None,
        build_expr_spec(s, value).0.next_value <= u32::MAX + 1,
        reads_available(s.blocks, avail),
        definitions_known(s, avail),
    ensures
        ({
            let (s1, op) = build_expr_spec(s, value);
            let s2 = with_instruction(s1, SpecInstruction::Bind { symbol_id: symbol, value: op });
            known_grows(s, avail, with_definitions(s2, define_spec(s2.definitions, symbol, op)), avail)
        }),
{
    assert(frame(s, s));
    lemma_expr_step(s, s, value);
    lemma_known_expr(s, avail, value);
    let (s1, op) = build_expr_spec(s, value);
    let bind = SpecInstruction::Bind { symbol_id: symbol, value: op };
    lemma_known_instruction(s1, avail, bind);
    let s2 = with_instruction(s1, bind);
    assert(computed_by(bind) =~= Set::<ValueId>::empty());
    assert(current_known(s2, avail) =~= current_known(s1, avail));
    assert forall|i: int| 0 <= i < s2.definitions.len() implies operand_in(
        #[trigger] s2.definitions[i].1,
        current_known(s2, avail),
    ) by {
        assert(s2.definitions[i] == s1.definitions[i]);
    }
    lemma_define_known(s2, avail, symbol, op);
}

proof fn lemma_known_if(
    s: BuildState,
    statement: SpecTypedStatement,
    rk: (Map<int, nat>, nat),
    avail: Seq<Set<ValueId>>,
) -> (av: Seq<Set<ValueId>>)
    requires
        statement is If,
        build_inv(s),
        s.blocks[s.current].terminator is None,
        ranked(s, rk),
        build_statement_spec(s, statement).blocks.len() <= u32::MAX + 1,
        build_statement_spec(s, statement).next_value <= u32::MAX + 1,
        reads_available(s.blocks, avail),
        definitions_known(s, avail),
    ensures
        known_grows(s, avail, build_statement_spec(s, statement), av),
    decreases statement, 0nat,
{
    let condition = statement->condition;
    let then_branch = statement->then_branch;
    let else_branch = statement->else_branch;
    let (h, s4, s5, s6, s7) = if_states(s, statement);
    let t = build_statement_spec(s, statement);
    lemma_if_chain(s, statement);
    assert(frame(s, s));
    lemma_expr_step(s, s, condition);
    let (s1, c) = build_expr_spec(s, condition);
    let n = s1.blocks.len() as int;
    let merge = n + 2;
    let start_then = with_current(h, n);
    let start_else = with_definitions(with_current(s5, n + 1), h.definitions);
    let start_merge = with_definitions(with_current(s7, merge), Seq::empty());
    assert(s1.next_value <= s4.next_value <= s5.next_value <= s6.next_value <= s7.next_value <= t.next_value);
    assert(h.blocks.len() <= s4.blocks.len() <= s5.blocks.len() <= s6.blocks.len() <= s7.blocks.len()
        <= t.blocks.len());
    // The condition, and the three new blocks, each entered with what the condition's block knows.
    lemma_known_expr(s, avail, condition);
    let shared = current_known(s1, avail);
    lemma_new_block_step(s, s1);
    let a1 = with_new_block(s1);
    lemma_new_block_step(s, a1);
    let a2 = with_new_block(a1);
    lemma_new_block_step(s, a2);
    let s2 = with_new_block(a2);
    lemma_known_new_block(s1, avail, shared);
    let av_a = avail.push(shared);
    lemma_known_new_block(a1, av_a, shared);
    let av_b = av_a.push(shared);
    lemma_known_new_block(a2, av_b, shared);
    let av0 = av_b.push(shared);
    assert(known_at(s2.blocks, av0, s.current) == shared) by {
        assert(known_at(a1.blocks, av_a, s.current) == known_at(s1.blocks, avail, s.current));
        assert(known_at(a2.blocks, av_b, s.current) == known_at(a1.blocks, av_a, s.current));
    }
    let branch = Terminator::Branch { condition: c, then_block: n as BlockId, else_block: (n + 1) as BlockId };
    assert(s2.blocks[n] == a1.blocks[n]);
    assert(s2.blocks[n + 1] == a2.blocks[n + 1]);
    assert forall|x: BlockId| #[trigger] terminator_targets(Some(branch)).contains(x) implies s.blocks.len() <= x
        < s2.blocks.len() && phi_free(s2.blocks[x as int]) by {
        let ts = terminator_targets(Some(branch));
        let j = choose|j: int| 0 <= j < ts.len() && ts[j] == x;
        assert(j == 0 || j == 1);
    }
    assert(s2.blocks[s2.current] == s1.blocks[s1.current]);
    lemma_terminator_step(s, s2, branch);
    assert forall|x: int|
        0 <= x < s2.blocks.len() && #[trigger] terminator_targets(Some(branch)).contains(x as BlockId)
            implies av0[x].subset_of(current_known(s2, av0)) && phis_read(s2.blocks[x], s2.current, current_known(s2, av0)) by {
        let ts = terminator_targets(Some(branch));
        let j = choose|j: int| 0 <= j < ts.len() && ts[j] == x as BlockId;
        assert(j == 0 || j == 1);
        assert(x == n || x == n + 1);
        assert(s2.blocks[x].instructions.len() == 0);
    }
    lemma_known_terminator(s2, av0, branch);
    assert(h == with_terminator(s2, s2.current, branch));
    // Ranks, as the structure of the `if` has them.
    lemma_ranked_same_terminators(s, s1, rk);
    lemma_rank_new_block(s1, rk);
    lemma_rank_new_block(a1, rk);
    lemma_rank_new_block(a2, rk);
    assert forall|x: BlockId| #[trigger] terminator_targets(Some(branch)).contains(x) implies !rk.0.contains_key(
        x as int,
    ) by {
        let ts = terminator_targets(Some(branch));
        let j = choose|j: int| 0 <= j < ts.len() && ts[j] == x;
        assert(j == 0 || j == 1);
    }
    lemma_rank_terminator(s2, rk, branch);
    let rk1 = assign_rank(rk, n);
    lemma_rank_current(h, rk, n);
    // Nothing leads to the merge block yet.
    assert forall|p: int| 0 <= p < h.blocks.len() implies !#[trigger] targets(h.blocks[p], merge) by {
        if p == s.current {
            let ts = terminator_targets(Some(branch));
            if ts.contains(merge as BlockId) {
                let j = choose|j: int| 0 <= j < ts.len() && ts[j] == merge as BlockId;
                assert(j == 0 || j == 1);
            }
        } else if p < n {
            assert(h.blocks[p] == s2.blocks[p]);
            assert(s2.blocks[p] == s1.blocks[p]);
            if targets(s1.blocks[p], merge) {
                assert(terminator_targets(s1.blocks[p].terminator).contains(merge as BlockId));
            }
        } else {
            assert(h.blocks[p] == s2.blocks[p]);
            assert(terminator_targets(s2.blocks[p].terminator) =~= Seq::<BlockId>::empty());
        }
    }
    // The then branch.
    assert(current_known(start_then, av0) =~= shared) by {
        assert(h.blocks[n].instructions =~= Seq::<SpecInstruction>::empty());
        assert(computed(Seq::<SpecInstruction>::empty()) =~= Set::<ValueId>::empty());
    }
    assert(definitions_known(start_then, av0)) by {
        assert forall|i: int| 0 <= i < start_then.definitions.len() implies operand_in(
            #[trigger] start_then.definitions[i].1,
            current_known(start_then, av0),
        ) by {
            assert(start_then.definitions[i] == s.definitions[i]);
        }
    }
    assert(frame(s, start_then));
    lemma_statements_inv(start_then, then_branch, rk1);
    let r1 = rank_statements(start_then, then_branch, rk1);
    lemma_frame_trans(s, start_then, s4);
    let av1 = lemma_known_statements(start_then, then_branch, rk1, av0);
    let a = s4.current;
    let live4 = branch_live(s4);
    let then_known = current_known(s4, av1);
    assert(s4.blocks[merge] == h.blocks[merge]);
    assert(h.blocks[merge] == s2.blocks[merge]);
    assert(s4.blocks[n + 1] == h.blocks[n + 1]);
    let jump = Terminator::Jump(merge as BlockId);
    assert(terminator_targets(Some(jump)) =~= seq![merge as BlockId]);
    assert(!r1.0.contains_key(merge) && !r1.0.contains_key(n + 1));
    if live4 {
        lemma_terminator_step(s, s4, jump);
        lemma_rank_terminator(s4, r1, jump);
        assert(av1[merge] == shared);
        assert forall|x: int|
            0 <= x < s4.blocks.len() && #[trigger] terminator_targets(Some(jump)).contains(x as BlockId)
                implies av1[x].subset_of(current_known(s4, av1)) && phis_read(s4.blocks[x], s4.current, current_known(s4, av1)) by {
            assert(x == merge);
        }
        lemma_known_terminator(s4, av1, jump);
    }
    assert(s5.blocks[merge] == s4.blocks[merge]);
    assert(s5.blocks[n + 1] == s4.blocks[n + 1]);
    assert(s5.definitions == s4.definitions);
    assert(reads_available(s5.blocks, av1));
    assert(known_at(s5.blocks, av1, a) == then_known);
    // The else branch.
    let rk2 = assign_rank(r1, n + 1);
    lemma_rank_current(s5, r1, n + 1);
    assert(current_known(start_else, av1) =~= shared) by {
        assert(s5.blocks[n + 1].instructions =~= Seq::<SpecInstruction>::empty());
        assert(computed(Seq::<SpecInstruction>::empty()) =~= Set::<ValueId>::empty());
        assert(av1[n + 1] == shared);
    }
    assert(definitions_known(start_else, av1)) by {
        assert forall|i: int| 0 <= i < start_else.definitions.len() implies operand_in(
            #[trigger] start_else.definitions[i].1,
            current_known(start_else, av1),
        ) by {
            assert(start_else.definitions[i] == s.definitions[i]);
        }
    }
    assert(frame(s, start_else));
    lemma_statements_inv(start_else, else_branch, rk2);
    lemma_frame_trans(s, start_else, s6);
    let av2 = lemma_known_statements(start_else, else_branch, rk2, av1);
    let e = s6.current;
    let live6 = branch_live(s6);
    let else_known = current_known(s6, av2);
    assert(s6.blocks[merge] == s5.blocks[merge]);
    assert(a == n || (h.blocks.len() <= a < s4.blocks.len()));
    assert(e == n + 1 || (s5.blocks.len() <= e < s6.blocks.len()));
    assert(s6.blocks[a] == s5.blocks[a]);
    assert(known_at(s6.blocks, av2, a) == then_known);
    if live6 {
        lemma_terminator_step(s, s6, jump);
        assert(av2[merge] == shared);
        assert forall|x: int|
            0 <= x < s6.blocks.len() && #[trigger] terminator_targets(Some(jump)).contains(x as BlockId)
                implies av2[x].subset_of(current_known(s6, av2)) && phis_read(s6.blocks[x], s6.current, current_known(s6, av2)) by {
            assert(x == merge);
        }
        lemma_known_terminator(s6, av2, jump);
    }
    assert(s7.blocks[merge] == s6.blocks[merge]);
    assert(s7.definitions == s6.definitions);
    assert(known_at(s7.blocks, av2, a) == then_known);
    assert(known_at(s7.blocks, av2, e) == else_known);
    // What the merge block is entered with.
    let entry = if live4 && live6 {
        shared
    } else if live4 {
        then_known
    } else if live6 {
        else_known
    } else {
        shared
    };
    assert forall|p: int| 0 <= p < s7.blocks.len() && #[trigger] targets(s7.blocks[p], merge) implies (p == a
        && live4) || (p == e && live6) by {
        if p == e {
            if !live6 {
                assert(s7.blocks[e] == s6.blocks[e]);
                assert(terminator_targets(s6.blocks[e].terminator).contains(merge as BlockId));
            }
        } else if p == a {
            assert(s7.blocks[a] == s6.blocks[a]);
            if !live4 {
                assert(s5.blocks[a] == s4.blocks[a]);
                assert(targets(s4.blocks[a], merge));
            }
        } else {
            assert(s7.blocks[p] == s6.blocks[p]);
            assert(targets(s5.blocks[p], merge));
            assert(s5.blocks[p] == s4.blocks[p]);
            assert(targets(h.blocks[p], merge));
        }
    }
    lemma_known_reannotate(s7.blocks, av2, merge, entry);
    let av3 = av2.update(merge, entry);
    assert(current_known(start_merge, av3) == entry);
    assert(definitions_known(start_merge, av3));
    // Merging.
    let then_fresh = fresh_between(h.next_value, s4.next_value);
    let else_fresh = fresh_between(s5.next_value, s6.next_value);
    assert(then_fresh.disjoint(else_fresh));
    assert(known_at(start_merge.blocks, av3, a) == then_known);
    assert(known_at(start_merge.blocks, av3, e) == else_known);
    if live4 && live6 {
        assert forall|p: int| 0 <= p < start_merge.blocks.len() && #[trigger] targets(start_merge.blocks[p], merge)
            implies p == a || p == e by {}
        assert(sole_jumps(start_merge.blocks, merge, a, e));
    }
    assert(merge_ready(start_merge, av3, h.definitions, 0, s5.definitions, s7.definitions, a, e, live4, live6,
        shared, then_fresh, else_fresh));
    lemma_known_merge(start_merge, av3, h.definitions, 0, s5.definitions, s7.definitions, a, e, live4, live6,
        shared, then_fresh, else_fresh);
    assert forall|i: int| 0 <= i < s.blocks.len() implies #[trigger] av3[i] == avail[i] by {
        assert(av2[i] == av1[i]);
        assert(av1[i] == av0[i]);
    }
    assert forall|v: ValueId| current_known(t, av3).contains(v) implies current_known(s, avail).union(
        fresh_between(s.next_value, t.next_value),
    ).contains(v) by {
        if !entry.contains(v) {
            assert(fresh_between(s7.next_value, t.next_value).contains(v));
        } else if !shared.contains(v) {
            if live4 && !live6 || live4 && live6 {
                assert(then_fresh.contains(v));
            } else {
                assert(else_fresh.contains(v));
            }
        } else if !current_known(s, avail).contains(v) {
            assert(fresh_between(s.next_value, s1.next_value).contains(v));
        }
    }
    av3
}

/// Whether a run stopped because it referred to a block, a value or a phi input that is not
/// there.
pub open spec fn refers_to_missing(result: Result<i64, CfgRuntimeError>) -> bool {
    match result {
        Err(CfgRuntimeError::MissingBlock(_)) => true,
        Err(CfgRuntimeError::MissingValue(_)) => true,
        Err(CfgRuntimeError::MissingPhiInput) => true,
        _ => false,
    }
}

/// Whether every value of `known` has been computed in `values`.
pub open spec fn all_computed(known: Set<ValueId>, values: Map<ValueId, i64>) -> bool {
    forall|v: ValueId| #[trigger] known.contains(v) ==> values.contains_key(v)
}

/// The values the phis of a block compute.
pub open spec fn phi_values(instructions: Seq<SpecInstruction>) -> Set<ValueId> {
    Set::new(
        |v: ValueId|
            exists|k: int|
                0 <= k < instructions.len() && (#[trigger] instructions[k]) is Phi && instructions[k]->Phi_result
                    == v,
    )
}

proof fn lemma_phi_input_found(incomings: Seq<(BlockId, Operand)>, p: BlockId, k: int, j: int)
    requires
        0 <= k <= j < incomings.len(),
        incomings[j].0 == p,
    ensures
        phi_input(incomings, p, k) matches Some(op) && exists|i: int|
            k <= i <= j && incomings[i].0 == p && #[trigger] incomings[i].1 == op,
    decreases j - k,
{
    if incomings[k].0 != p {
        lemma_phi_input_found(incomings, p, k + 1, j);
    } else {
        assert(incomings[k].1 == incomings[k].1);
    }
}

pub(crate) proof fn lemma_record_keys(values: Map<ValueId, i64>, results: Seq<(ValueId, i64)>)
    ensures
        forall|v: ValueId| values.contains_key(v) ==> #[trigger] record(values, results).contains_key(v),
        forall|i: int| 0 <= i < results.len() ==> record(values, results).contains_key(#[trigger] results[i].0),
    decreases results.len(),
{
    if results.len() > 0 {
        let init = results.drop_last();
        lemma_record_keys(values, init);
        assert forall|v: ValueId| values.contains_key(v) implies #[trigger] record(values, results).contains_key(v) by {
            assert(record(values, init).contains_key(v));
        }
        assert forall|i: int| 0 <= i < results.len() implies record(values, results).contains_key(
            #[trigger] results[i].0,
        ) by {
            if i < init.len() {
                assert(results[i] == init[i]);
            }
        }
    }
}

/// The phis of a block entered from `p`, when each has an input for `p` and reads only computed
/// values on it, all get values.
pub(crate) proof fn lemma_phis_ok(b: SpecBlock, k: int, p: BlockId, values: Map<ValueId, i64>, known: Set<ValueId>)
    requires
        0 <= k,
        all_computed(known, values),
        forall|q: int|
            k <= q < b.instructions.len() && (#[trigger] b.instructions[q]) is Phi ==> exists|j: int|
                0 <= j < b.instructions[q]->Phi_incomings.len() && b.instructions[q]->Phi_incomings[j].0 == p,
        phis_read(b, p as int, known),
    ensures
        phi_results(b.instructions, k, Some(p), values) matches Ok(results) && forall|q: int|
            k <= q < b.instructions.len() && (#[trigger] b.instructions[q]) is Phi ==> exists|i: int|
                0 <= i < results.len() && results[i].0 == b.instructions[q]->Phi_result,
    decreases b.instructions.len() - k,
{
    let instructions = b.instructions;
    if k < instructions.len() {
        lemma_phis_ok(b, k + 1, p, values, known);
        let rest = phi_results(instructions, k + 1, Some(p), values)->Ok_0;
        if let SpecInstruction::Phi { result, incomings, .. } = instructions[k] {
            let j = choose|j: int| 0 <= j < incomings.len() && incomings[j].0 == p;
            lemma_phi_input_found(incomings, p, 0, j);
            let op = phi_input(incomings, p, 0)->Some_0;
            let i = choose|i: int| 0 <= i <= j && incomings[i].0 == p && #[trigger] incomings[i].1 == op;
            assert(b.instructions[k]->Phi_incomings[i] == incomings[i]);
            assert(operand_in(op, known));
            let results = phi_results(instructions, k, Some(p), values)->Ok_0;
            assert(results == seq![(result, resolve_spec(values, op)->Ok_0)] + rest);
            assert forall|q: int| k <= q < instructions.len() && (#[trigger] instructions[q]) is Phi implies exists|i2: int|
                0 <= i2 < results.len() && results[i2].0 == instructions[q]->Phi_result by {
                if q == k {
                    assert(results[0].0 == result);
                } else {
                    let i2 = choose|i2: int| 0 <= i2 < rest.len() && rest[i2].0 == instructions[q]->Phi_result;
                    assert(results[i2 + 1] == rest[i2]);
                }
            }
        }
    }
}

/// Running the binary instructions of a block that reads only values of `base` or values it
/// computed before, where every value of `base` and every phi of the block has been computed:
/// the run stops only on arithmetic errors, and computes everything the block computes.
pub(crate) proof fn lemma_instructions_read(b: SpecBlock, k: int, values: Map<ValueId, i64>, base: Set<ValueId>)
    requires
        0 <= k <= b.instructions.len(),
        binaries_read(b, base),
        phi_values(b.instructions).subset_of(base),
        all_computed(base.union(computed(b.instructions.subrange(0, k))), values),
    ensures
        match run_instructions(b.instructions, k, values) {
            Ok(after) => all_computed(base.union(computed(b.instructions)), after),
            Err(e) => e is DivisionByZero || e is IntegerOverflow,
        },
    decreases b.instructions.len() - k,
{
    let instructions = b.instructions;
    if k == instructions.len() {
        assert(instructions.subrange(0, k) =~= instructions);
    } else {
        let next_prefix = instructions.subrange(0, k + 1);
        assert(next_prefix.drop_last() =~= instructions.subrange(0, k));
        assert(computed(next_prefix) == computed(instructions.subrange(0, k)).union(computed_by(instructions[k])));
        match instructions[k] {
            SpecInstruction::Binary { result, op, left, right } => {
                assert(b.instructions[k] == instructions[k]);
                if let Ok(l) = resolve_spec(values, left) {
                    if let Ok(r) = resolve_spec(values, right) {
                        if let Ok(v) = binary_spec(op, l, r) {
                            let next = values.insert(result, v);
                            assert forall|w: ValueId| #[trigger] base.union(computed(next_prefix)).contains(w) implies next.contains_key(w) by {
                                if w != result {
                                    assert(base.union(computed(instructions.subrange(0, k))).contains(w));
                                }
                            }
                            lemma_instructions_read(b, k + 1, next, base);
                        }
                    }
                }
            },
            SpecInstruction::Phi { result, .. } => {
                assert(instructions[k] is Phi && instructions[k]->Phi_result == result);
                assert(phi_values(instructions).contains(result));
                assert(base.contains(result));
                assert forall|w: ValueId| #[trigger] base.union(computed(next_prefix)).contains(w) implies values.contains_key(w) by {
                    assert(base.union(computed(instructions.subrange(0, k))).contains(w));
                }
                lemma_instructions_read(b, k + 1, values, base);
            },
            SpecInstruction::Bind { .. } => {
                assert(base.union(computed(next_prefix)) =~= base.union(computed(instructions.subrange(0, k))));
                lemma_instructions_read(b, k + 1, values, base);
            },
        }
    }
}

pub(crate) proof fn lemma_no_phis(instructions: Seq<SpecInstruction>, k: int, predecessor: Option<BlockId>, values: Map<ValueId, i64>)
    requires
        0 <= k,
        forall|q: int| 0 <= q < instructions.len() ==> !(#[trigger] instructions[q] is Phi),
    ensures
        phi_results(instructions, k, predecessor, values) == Ok::<Seq<(ValueId, i64)>, CfgRuntimeError>(
            Seq::empty(),
        ),
    decreases instructions.len() - k,
{
    if k < instructions.len() {
        lemma_no_phis(instructions, k + 1, predecessor, values);
    }
}

/// The annotation of the blocks a fresh builder makes of a block: by position, what is
/// available on entry to each block, shown to cover what the blocks read.
pub(crate) proof fn lemma_built_annotation(statements: Seq<SpecTypedStatement>) -> (avail: Seq<Set<ValueId>>)
    requires
        fits(build_statements_spec(initial_build_state(), statements)),
    ensures
        ({
            let blocks = build_statements_spec(initial_build_state(), statements).blocks;
            &&& build_inv(build_statements_spec(initial_build_state(), statements))
            &&& reads_available(blocks, avail)
            &&& avail[0] == Set::<ValueId>::empty()
            &&& phi_free(blocks[0])
        }),
{
    let init = initial_build_state();
    let last = build_statements_spec(init, statements);
    let blocks = last.blocks;
    assert(init.blocks[0].id == 0);
    assert(terminator_targets(init.blocks[0].terminator) =~= Seq::<BlockId>::empty());
    assert(build_inv(init));
    let rk0: (Map<int, nat>, nat) = (map![0int => 0nat], 1nat);
    assert(ranked(init, rk0));
    lemma_build_statements_grows(init, statements);
    lemma_statements_inv(init, statements, rk0);
    let av0 = seq![Set::<ValueId>::empty()];
    assert(init.blocks[0].instructions =~= Seq::<SpecInstruction>::empty());
    assert(computed(Seq::<SpecInstruction>::empty()) =~= Set::<ValueId>::empty());
    assert(reads_available(init.blocks, av0)) by {
        assert forall|p: int, m: int| 0 <= p < 1 && 0 <= m < 1 implies #[trigger] edge_reads_ok(init.blocks, av0, p, m) by {
            assert(!targets(init.blocks[p], m));
        }
    }
    assert(definitions_known(init, av0));
    let avail = lemma_known_statements(init, statements, rk0, av0);
    assert(avail[0] == Set::<ValueId>::empty());
    // Nothing jumps to the entry block, so it holds no phi.
    assert(phi_free(blocks[0])) by {
        assert forall|k: int| 0 <= k < blocks[0].instructions.len() implies !(#[trigger] blocks[0].instructions[k] is Phi) by {
            if blocks[0].instructions[k] is Phi {
                let incomings = blocks[0].instructions[k]->Phi_incomings;
                assert(phi_sound(blocks, 0, incomings));
                let a = incomings[0].0 as int;
                assert(sole_jumps(blocks, 0, a, incomings[1].0 as int));
                assert(terminator_targets(blocks[a].terminator)[0] == 0);
                assert(targets(blocks[a], 0));
                assert(targets(init.blocks[a], 0));
            }
        }
    }
    avail
}

} // verus!
