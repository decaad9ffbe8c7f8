use vstd::prelude::*;

use crate::cfg::{
    find_block, find_block_from, keep_blocks, lemma_find_block_from, predecessors_spec,
    prune_spec, reachable_set, successors_spec, terminator_targets, BlockId,
    SpecBlock, SpecCfg, SpecInstruction, Terminator, ValueId,
};
use crate::cfg::Operand;
use crate::cfg_runtime::{
    block_values, execute_spec, run_spec, step_limit,
    binary_spec, phi_input, phi_results, record, resolve_spec, run_instructions, CfgRuntimeError,
};
use crate::cfg_opt::{
    evaluate_binary_spec, incoming_uses, join, lattice_of_spec, live_incomings, operand_uses,
    phi_lattice, rewrite_instruction_spec, rewrite_operand_spec, simplify_instruction_spec,
    fold_block_spec, optimize_spec, propagated_spec, rewrite_block_spec,
    rewrite_spec, simplify_block_spec, simplify_spec,
};
use crate::cfg_opt::{
    blocks_uses, dce_from, dce_pass_spec, dead_total, instruction_total,
    instruction_uses, instructions_uses, is_dead, lemma_dce_total, live_instructions, used_values,
    analysis_iterate, analysis_pass_from, analysis_spec, evaluate_instruction_spec, evaluate_instructions, is_fixpoint, lattice_le, lemma_all_results,
    lemma_analysis_spec, lemma_merge_value_le, lemma_progress, lemma_target_in_universe, map_le,
    mark_successors_spec, progress, progress_bound, result_universe, within, Lattice,
};

verus! {

/// Evaluating the first `n` instructions of block `m` keeps the values within the graph and
/// only raises them.
proof fn lemma_evaluate_within(
    g: SpecCfg,
    m: int,
    n: int,
    v: Map<ValueId, Lattice>,
    e: Set<BlockId>,
)
    requires
        0 <= m < g.blocks.len(),
        0 <= n <= g.blocks[m].instructions.len(),
        v.dom().subset_of(result_universe(g)),
    ensures
        evaluate_instructions(g.blocks[m].instructions, n, v, e).dom().subset_of(result_universe(g)),
        map_le(v, evaluate_instructions(g.blocks[m].instructions, n, v, e)),
    decreases n,
{
    if n > 0 {
        let instructions = g.blocks[m].instructions;
        lemma_evaluate_within(g, m, n - 1, v, e);
        let before = evaluate_instructions(instructions, n - 1, v, e);
        lemma_all_results(g.blocks, m, n - 1);
        match instructions[n - 1] {
            SpecInstruction::Binary { result, op, left, right } => {
                lemma_merge_value_le(
                    before,
                    result,
                    crate::cfg_opt::evaluate_binary_spec(
                        op,
                        crate::cfg_opt::lattice_of_spec(left, before),
                        crate::cfg_opt::lattice_of_spec(right, before),
                    ),
                );
            },
            SpecInstruction::Phi { result, incomings, .. } => {
                lemma_merge_value_le(
                    before,
                    result,
                    crate::cfg_opt::phi_lattice(incomings, incomings.len() as int, before, e),
                );
            },
            _ => {},
        }
        let after = evaluate_instructions(instructions, n, v, e);
        assert(after.dom().subset_of(result_universe(g)));
        lemma_map_le_trans(v, before, after);
    }
}

proof fn lemma_map_le_trans(a: Map<ValueId, Lattice>, b: Map<ValueId, Lattice>, c: Map<ValueId, Lattice>)
    requires
        map_le(a, b),
        map_le(b, c),
    ensures
        map_le(a, c),
{
    assert forall|k: ValueId| #[trigger] a.contains_key(k) implies c.contains_key(k) && lattice_le(a[k], c[k]) by {
        assert(b.contains_key(k));
    }
}

/// Marking the successors of block `m` keeps the executable blocks within the graph.
proof fn lemma_mark_within(g: SpecCfg, m: int, v: Map<ValueId, Lattice>, e: Set<BlockId>)
    requires
        0 <= m < g.blocks.len(),
        e.subset_of(crate::cfg::id_universe(g)),
    ensures
        mark_successors_spec(g.blocks[m].terminator, v, e).subset_of(crate::cfg::id_universe(g)),
        e.subset_of(mark_successors_spec(g.blocks[m].terminator, v, e)),
{
    let t = g.blocks[m].terminator;
    match t {
        Some(Terminator::Jump(target)) => {
            assert(crate::cfg::terminator_targets(t)[0] == target);
            lemma_target_in_universe(g, m, target);
        },
        Some(Terminator::Branch { then_block, else_block, .. }) => {
            assert(crate::cfg::terminator_targets(t)[0] == then_block);
            assert(crate::cfg::terminator_targets(t)[1] == else_block);
            lemma_target_in_universe(g, m, then_block);
            lemma_target_in_universe(g, m, else_block);
        },
        _ => {},
    }
}

/// The first `n` blocks of a pass keep the state within the graph and only raise it.
pub(crate) proof fn lemma_pass_from_within(g: SpecCfg, n: int, state: (Map<ValueId, Lattice>, Set<BlockId>))
    requires
        0 <= n <= g.blocks.len(),
        within(g, state),
    ensures
        within(g, analysis_pass_from(g.blocks, n, state.0, state.1)),
        map_le(state.0, analysis_pass_from(g.blocks, n, state.0, state.1).0),
        state.1.subset_of(analysis_pass_from(g.blocks, n, state.0, state.1).1),
    decreases n,
{
    if n > 0 {
        lemma_pass_from_within(g, n - 1, state);
        let (v, e) = analysis_pass_from(g.blocks, n - 1, state.0, state.1);
        let b = g.blocks[n - 1];
        if e.contains(b.id) {
            lemma_evaluate_within(g, n - 1, b.instructions.len() as int, v, e);
            let after = evaluate_instructions(b.instructions, b.instructions.len() as int, v, e);
            lemma_mark_within(g, n - 1, after, e);
            lemma_map_le_trans(state.0, v, after);
        }
    }
}

/// Every state of the iteration is within the graph and above the initial one.
pub(crate) proof fn lemma_iterate_within(g: SpecCfg, n: nat)
    ensures
        within(g, analysis_iterate(g, n)),
        analysis_iterate(g, n).1.contains(g.entry),
    decreases n,
{
    if n == 0 {
        let all = seq![g.entry] + crate::cfg::all_targets(g.blocks);
        assert(all[0] == g.entry);
        assert(analysis_iterate(g, 0).0.dom() =~= Set::<ValueId>::empty());
    } else {
        lemma_iterate_within(g, (n - 1) as nat);
        let prior = analysis_iterate(g, (n - 1) as nat);
        lemma_pass_from_within(g, g.blocks.len() as int, prior);
    }
}

/// Without a fixpoint among the first `n` states, progress reaches at least `n`.
proof fn lemma_iterate_progress(g: SpecCfg, n: nat)
    requires
        forall|k: nat| k < n ==> !is_fixpoint(g, #[trigger] analysis_iterate(g, k)),
    ensures
        progress(analysis_iterate(g, n)) >= n,
    decreases n,
{
    if n > 0 {
        let k = (n - 1) as nat;
        lemma_iterate_progress(g, k);
        lemma_iterate_within(g, k);
        let prior = analysis_iterate(g, k);
        lemma_pass_from_within(g, g.blocks.len() as int, prior);
        assert(!is_fixpoint(g, prior));
        lemma_progress(g, prior, analysis_iterate(g, n));
    }
}

/// The analysis reaches a fixpoint: a pass over the result changes nothing.
pub proof fn lemma_analysis_fixpoint(g: SpecCfg)
    ensures
        is_fixpoint(g, analysis_spec(g)),
        within(g, analysis_spec(g)),
        analysis_spec(g).1.contains(g.entry),
{
    let bound = progress_bound(g) + 1;
    if forall|k: nat| k < bound ==> !is_fixpoint(g, #[trigger] analysis_iterate(g, k)) {
        lemma_iterate_progress(g, bound);
        lemma_iterate_within(g, bound);
        let s = analysis_iterate(g, bound);
        lemma_progress(g, s, s);
        assert(false);
    }
    let n = choose|k: nat| k < bound && is_fixpoint(g, #[trigger] analysis_iterate(g, k));
    lemma_analysis_spec(g, n);
    lemma_iterate_within(g, n);
}


proof fn lemma_map_le_refl(a: Map<ValueId, Lattice>)
    ensures
        map_le(a, a),
{
}

pub(crate) proof fn lemma_pass_from_mono(g: SpecCfg, m: int, n: int, state: (Map<ValueId, Lattice>, Set<BlockId>))
    requires
        0 <= m <= n <= g.blocks.len(),
        within(g, state),
    ensures
        map_le(
            analysis_pass_from(g.blocks, m, state.0, state.1).0,
            analysis_pass_from(g.blocks, n, state.0, state.1).0,
        ),
        analysis_pass_from(g.blocks, m, state.0, state.1).1.subset_of(
            analysis_pass_from(g.blocks, n, state.0, state.1).1,
        ),
    decreases n - m,
{
    if m == n {
        lemma_map_le_refl(analysis_pass_from(g.blocks, m, state.0, state.1).0);
    } else {
        lemma_pass_from_mono(g, m, n - 1, state);
        lemma_pass_from_within(g, n - 1, state);
        let (v, e) = analysis_pass_from(g.blocks, n - 1, state.0, state.1);
        let b = g.blocks[n - 1];
        if e.contains(b.id) {
            lemma_evaluate_within(g, n - 1, b.instructions.len() as int, v, e);
            let after = evaluate_instructions(b.instructions, b.instructions.len() as int, v, e);
            lemma_mark_within(g, n - 1, after, e);
            lemma_map_le_trans(analysis_pass_from(g.blocks, m, state.0, state.1).0, v, after);
        }
    }
}

proof fn lemma_evaluate_mono(g: SpecCfg, m: int, k: int, n: int, v: Map<ValueId, Lattice>, e: Set<BlockId>)
    requires
        0 <= m < g.blocks.len(),
        0 <= k <= n <= g.blocks[m].instructions.len(),
        v.dom().subset_of(result_universe(g)),
    ensures
        map_le(
            evaluate_instructions(g.blocks[m].instructions, k, v, e),
            evaluate_instructions(g.blocks[m].instructions, n, v, e),
        ),
    decreases n - k,
{
    let instructions = g.blocks[m].instructions;
    if k == n {
        lemma_map_le_refl(evaluate_instructions(instructions, k, v, e));
    } else {
        lemma_evaluate_mono(g, m, k, n - 1, v, e);
        lemma_evaluate_within(g, m, n - 1, v, e);
        let before = evaluate_instructions(instructions, n - 1, v, e);
        lemma_evaluate_within(g, m, n, v, e);
        match instructions[n - 1] {
            SpecInstruction::Binary { result, op, left, right } => {
                lemma_merge_value_le(
                    before,
                    result,
                    crate::cfg_opt::evaluate_binary_spec(
                        op,
                        crate::cfg_opt::lattice_of_spec(left, before),
                        crate::cfg_opt::lattice_of_spec(right, before),
                    ),
                );
            },
            SpecInstruction::Phi { result, incomings, .. } => {
                lemma_merge_value_le(
                    before,
                    result,
                    crate::cfg_opt::phi_lattice(incomings, incomings.len() as int, before, e),
                );
            },
            _ => {
                lemma_map_le_refl(before);
            },
        }
        lemma_map_le_trans(
            evaluate_instructions(instructions, k, v, e),
            before,
            evaluate_instructions(instructions, n, v, e),
        );
    }
}

/// At a fixpoint, every executable block leaves the state as it is: each of its instructions
/// leaves the values unchanged, and its successors are already executable.
pub proof fn lemma_stable_block(g: SpecCfg, m: int, k: int)
    requires
        0 <= m < g.blocks.len(),
        0 <= k < g.blocks[m].instructions.len(),
        analysis_spec(g).1.contains(g.blocks[m].id),
    ensures
        evaluate_instruction_spec(g.blocks[m].instructions[k], analysis_spec(g).0, analysis_spec(g).1)
            == analysis_spec(g).0,
{
    let a = analysis_spec(g);
    lemma_block_fixed(g, m);
    let instructions = g.blocks[m].instructions;
    let len = instructions.len() as int;
    lemma_evaluate_within(g, m, k, a.0, a.1);
    lemma_evaluate_within(g, m, k + 1, a.0, a.1);
    lemma_evaluate_within(g, m, len, a.0, a.1);
    lemma_evaluate_mono(g, m, k, len, a.0, a.1);
    lemma_evaluate_mono(g, m, k + 1, len, a.0, a.1);
    let vk = evaluate_instructions(instructions, k, a.0, a.1);
    let vk1 = evaluate_instructions(instructions, k + 1, a.0, a.1);
    lemma_progress(g, (a.0, a.1), (vk, a.1));
    lemma_progress(g, (vk, a.1), (a.0, a.1));
    lemma_progress(g, (a.0, a.1), (vk1, a.1));
    lemma_progress(g, (vk1, a.1), (a.0, a.1));
    assert(vk == a.0);
    assert(vk1 == a.0);
}

/// At a fixpoint, every executable block's whole evaluation leaves the values as they are and
/// marks no new block.
pub proof fn lemma_block_fixed(g: SpecCfg, m: int)
    requires
        0 <= m < g.blocks.len(),
        analysis_spec(g).1.contains(g.blocks[m].id),
    ensures
        evaluate_instructions(
            g.blocks[m].instructions,
            g.blocks[m].instructions.len() as int,
            analysis_spec(g).0,
            analysis_spec(g).1,
        ) == analysis_spec(g).0,
        mark_successors_spec(g.blocks[m].terminator, analysis_spec(g).0, analysis_spec(g).1)
            == analysis_spec(g).1,
        within(g, analysis_spec(g)),
{
    let a = analysis_spec(g);
    lemma_analysis_fixpoint(g);
    let len = g.blocks.len() as int;
    lemma_pass_from_within(g, m, a);
    lemma_pass_from_within(g, m + 1, a);
    lemma_pass_from_within(g, len, a);
    lemma_pass_from_mono(g, m, len, a);
    lemma_pass_from_mono(g, m + 1, len, a);
    let sm = analysis_pass_from(g.blocks, m, a.0, a.1);
    let sm1 = analysis_pass_from(g.blocks, m + 1, a.0, a.1);
    assert(analysis_pass_from(g.blocks, len, a.0, a.1) == a);
    lemma_progress(g, a, sm);
    lemma_progress(g, sm, a);
    lemma_progress(g, a, sm1);
    lemma_progress(g, sm1, a);
    assert(sm == a);
    assert(sm1 == a);
}

/// A merge that changes nothing means the merged lattice value is already below the stored one.
pub proof fn lemma_merge_stable(values: Map<ValueId, Lattice>, id: ValueId, next: Lattice)
    requires
        crate::cfg_opt::merge_value_spec(values, id, next) == values,
    ensures
        values.contains_key(id),
        lattice_le(next, values[id]),
{
    assert(crate::cfg_opt::merge_value_spec(values, id, next).contains_key(id));
    let current = crate::cfg_opt::lattice_of_spec(crate::cfg::Operand::Value(id), values);
    assert(values[id] == crate::cfg_opt::join(current, next));
}


/// Whether an instruction survives dead-code elimination against the values `used`.
pub open spec fn keeps(used: Set<ValueId>) -> spec_fn(SpecInstruction) -> bool {
    |i: SpecInstruction| !is_dead(i, used)
}

pub(crate) proof fn lemma_live_is_filter(s: Seq<SpecInstruction>, n: int, used: Set<ValueId>)
    requires
        0 <= n <= s.len(),
    ensures
        live_instructions(s, n, used) == s.subrange(0, n).filter(keeps(used)),
    decreases n,
{
    reveal(Seq::filter);
    let t = s.subrange(0, n);
    if n == 0 {
        assert(t =~= Seq::<SpecInstruction>::empty());
    } else {
        lemma_live_is_filter(s, n - 1, used);
        assert(t.drop_last() =~= s.subrange(0, n - 1));
        assert(t.last() == s[n - 1]);
    }
}

proof fn lemma_filter_filter(s: Seq<SpecInstruction>, a: Set<ValueId>, b: Set<ValueId>)
    ensures
        s.filter(keeps(a)).filter(keeps(b)) == s.filter(keeps(a.intersect(b))),
    decreases s.len(),
{
    reveal(Seq::filter);
    if s.len() > 0 {
        let init = s.drop_last();
        let x = s.last();
        lemma_filter_filter(init, a, b);
        let fa = init.filter(keeps(a));
        if keeps(a)(x) {
            assert(fa.push(x).drop_last() =~= fa);
            assert(fa.push(x).last() == x);
        }
    }
}

proof fn lemma_filter_full(s: Seq<SpecInstruction>)
    ensures
        s.filter(keeps(Set::full())) == s,
    decreases s.len(),
{
    reveal(Seq::filter);
    if s.len() > 0 {
        lemma_filter_full(s.drop_last());
        assert(s.drop_last().push(s.last()) =~= s);
    }
}

pub(crate) proof fn lemma_instructions_uses_prefix(a: Seq<SpecInstruction>, b: Seq<SpecInstruction>, n: int)
    requires
        0 <= n <= a.len(),
        n <= b.len(),
        forall|k: int| 0 <= k < n ==> a[k] == b[k],
    ensures
        instructions_uses(a, n) == instructions_uses(b, n),
    decreases n,
{
    if n > 0 {
        lemma_instructions_uses_prefix(a, b, n - 1);
    }
}

proof fn lemma_uses_filter(s: Seq<SpecInstruction>, k: spec_fn(SpecInstruction) -> bool)
    ensures
        instructions_uses(s.filter(k), s.filter(k).len() as int).subset_of(instructions_uses(s, s.len() as int)),
    decreases s.len(),
{
    reveal(Seq::filter);
    if s.len() > 0 {
        let init = s.drop_last();
        let x = s.last();
        lemma_uses_filter(init, k);
        lemma_instructions_uses_prefix(s, init, init.len() as int);
        let f = init.filter(k);
        if k(x) {
            let g = f.push(x);
            lemma_instructions_uses_prefix(g, f, f.len() as int);
        }
    }
}

/// A round of dead-code elimination reads no value the graph before it did not read.
proof fn lemma_dce_pass_uses(g: SpecCfg, n: int)
    requires
        0 <= n <= g.blocks.len(),
    ensures
        blocks_uses(dce_pass_spec(g).blocks, n).subset_of(blocks_uses(g.blocks, n)),
    decreases n,
{
    if n > 0 {
        lemma_dce_pass_uses(g, n - 1);
        let b = g.blocks[n - 1];
        let used = used_values(g);
        lemma_live_is_filter(b.instructions, b.instructions.len() as int, used);
        assert(b.instructions.subrange(0, b.instructions.len() as int) =~= b.instructions);
        lemma_uses_filter(b.instructions, keeps(used));
    }
}

/// The blocks of `h` are those of `base`, with the instructions kept against `used`.
pub open spec fn filtered_from(h: SpecCfg, base: SpecCfg, used: Set<ValueId>) -> bool {
    &&& h.entry == base.entry
    &&& h.blocks.len() == base.blocks.len()
    &&& forall|j: int|
        0 <= j < base.blocks.len() ==> #[trigger] h.blocks[j] == (SpecBlock {
            id: base.blocks[j].id,
            instructions: base.blocks[j].instructions.filter(keeps(used)),
            terminator: base.blocks[j].terminator,
        })
}

proof fn lemma_filtered_twice(h: SpecCfg, base: SpecCfg, a: Set<ValueId>, b: Set<ValueId>, next: SpecCfg)
    requires
        filtered_from(h, base, a),
        next.entry == h.entry,
        next.blocks.len() == h.blocks.len(),
        forall|j: int| 0 <= j < h.blocks.len() ==> #[trigger] next.blocks[j] == (SpecBlock {
            id: h.blocks[j].id,
            instructions: h.blocks[j].instructions.filter(keeps(b)),
            terminator: h.blocks[j].terminator,
        }),
    ensures
        filtered_from(next, base, a.intersect(b)),
{
    assert forall|j: int| 0 <= j < base.blocks.len() implies #[trigger] next.blocks[j] == (SpecBlock {
        id: base.blocks[j].id,
        instructions: base.blocks[j].instructions.filter(keeps(a.intersect(b))),
        terminator: base.blocks[j].terminator,
    }) by {
        assert(h.blocks[j] == (SpecBlock {
            id: base.blocks[j].id,
            instructions: base.blocks[j].instructions.filter(keeps(a)),
            terminator: base.blocks[j].terminator,
        }));
        lemma_filter_filter(base.blocks[j].instructions, a, b);
    }
}

/// Rounds of dead-code elimination from a graph that is `base` filtered against `s` end in
/// `base` filtered against the values the result reads.
proof fn lemma_dce_rounds(g: SpecCfg, base: SpecCfg, s: Set<ValueId>, fuel: nat)
    requires
        filtered_from(g, base, s),
        used_values(g).subset_of(s),
        fuel > instruction_total(g.blocks, g.blocks.len() as int),
    ensures
        filtered_from(dce_from(g, fuel).0, base, used_values(dce_from(g, fuel).0)),
        used_values(dce_from(g, fuel).0).subset_of(s),
    decreases fuel,
{
    let used = used_values(g);
    let removed = dead_total(g.blocks, g.blocks.len() as int, used);
    let next = dce_pass_spec(g);
    assert forall|j: int| 0 <= j < g.blocks.len() implies #[trigger] next.blocks[j] == (SpecBlock {
        id: g.blocks[j].id,
        instructions: g.blocks[j].instructions.filter(keeps(used)),
        terminator: g.blocks[j].terminator,
    }) by {
        let b = g.blocks[j];
        lemma_live_is_filter(b.instructions, b.instructions.len() as int, used);
        assert(b.instructions.subrange(0, b.instructions.len() as int) =~= b.instructions);
    }
    lemma_filtered_twice(g, base, s, used, next);
    if removed == 0 {
        crate::cfg_opt::lemma_nothing_dead(g.blocks, g.blocks.len() as int, used);
        assert(next.blocks =~= g.blocks);
        assert(s.intersect(used) =~= used);
    } else {
        lemma_dce_total(g.blocks, g.blocks.len() as int, used);
        lemma_dce_pass_uses(g, g.blocks.len() as int);
        assert(s.intersect(used) =~= used);
        lemma_dce_rounds(next, base, used, (fuel - 1) as nat);
    }
}

/// The result of dead-code elimination is its input with exactly the instructions kept whose
/// value the result still reads (and every bind).
pub proof fn lemma_dce_result(g: SpecCfg)
    ensures
        filtered_from(crate::cfg_opt::dce_spec(g).0, g, used_values(crate::cfg_opt::dce_spec(g).0)),
{
    assert forall|j: int| 0 <= j < g.blocks.len() implies #[trigger] g.blocks[j] == (SpecBlock {
        id: g.blocks[j].id,
        instructions: g.blocks[j].instructions.filter(keeps(Set::full())),
        terminator: g.blocks[j].terminator,
    }) by {
        lemma_filter_full(g.blocks[j].instructions);
    }
    assert(filtered_from(g, g, Set::full()));
    lemma_dce_rounds(g, g, Set::full(), instruction_total(g.blocks, g.blocks.len() as int) + 1);
}


pub(crate) proof fn lemma_find_block_same_ids(a: Seq<SpecBlock>, b: Seq<SpecBlock>, id: BlockId, from: int)
    requires
        a.len() == b.len(),
        forall|k: int| 0 <= k < a.len() ==> (#[trigger] a[k]).id == b[k].id,
    ensures
        find_block_from(a, id, from) == find_block_from(b, id, from),
    decreases a.len() - from,
{
    if 0 <= from < a.len() {
        lemma_find_block_same_ids(a, b, id, from + 1);
    }
}

pub(crate) proof fn lemma_keep_sub(blocks: Seq<SpecBlock>, keep: Set<BlockId>, x: SpecBlock)
    requires
        keep_blocks(blocks, keep).contains(x),
    ensures
        blocks.contains(x),
    decreases blocks.len(),
{
    let init = blocks.drop_last();
    let rest = keep_blocks(init, keep);
    if keep.contains(blocks.last().id) && x == blocks.last() {
        assert(blocks[blocks.len() - 1] == x);
    } else {
        if keep.contains(blocks.last().id) {
            let k = choose|k: int| 0 <= k < rest.push(blocks.last()).len() && rest.push(blocks.last())[k] == x;
            assert(k < rest.len());
            assert(rest[k] == x);
        }
        lemma_keep_sub(init, keep, x);
        let k = choose|k: int| 0 <= k < init.len() && init[k] == x;
        assert(blocks[k] == x);
    }
}

/// Pruning keeps, for an id it keeps, the first block with that id.
pub(crate) proof fn lemma_find_kept(blocks: Seq<SpecBlock>, keep: Set<BlockId>, id: BlockId, i: int)
    requires
        keep.contains(id),
        find_block(blocks, id) == Some(i),
    ensures
        find_block(keep_blocks(blocks, keep), id) matches Some(j) && keep_blocks(blocks, keep)[j] == blocks[i],
    decreases blocks.len(),
{
    lemma_find_block_from(blocks, id, 0);
    let init = blocks.drop_last();
    let rest = keep_blocks(init, keep);
    let kept = keep_blocks(blocks, keep);
    if i == blocks.len() - 1 {
        assert forall|j: int| 0 <= j < rest.len() implies rest[j].id != id by {
            assert(rest.contains(rest[j]));
            lemma_keep_sub(init, keep, rest[j]);
            let k = choose|k: int| 0 <= k < init.len() && init[k] == rest[j];
            assert(blocks[k] == init[k]);
        }
        assert(kept == rest.push(blocks.last()));
        lemma_find_block_from(kept, id, 0);
        assert(kept[rest.len() as int].id == id);
        match find_block(kept, id) {
            Some(j) => {
                if j < rest.len() {
                    assert(kept[j] == rest[j]);
                }
            },
            None => {},
        }
    } else {
        assert forall|k: int| 0 <= k < init.len() implies #[trigger] init[k] == blocks[k] by {}
        lemma_find_block_from(init, id, 0);
        assert(find_block(init, id) == Some(i)) by {
            match find_block(init, id) {
                Some(k) => {
                    assert(init[k] == blocks[k]);
                    assert(init[i] == blocks[i]);
                },
                None => {
                    assert(init[i] == blocks[i]);
                },
            }
        }
        lemma_find_kept(init, keep, id, i);
        let j = find_block(rest, id).unwrap();
        lemma_find_block_from(rest, id, 0);
        lemma_find_block_from(kept, id, 0);
        if keep.contains(blocks.last().id) {
            assert(kept == rest.push(blocks.last()));
            assert(kept[j] == rest[j]);
            match find_block(kept, id) {
                Some(k) => {
                    if k < j {
                        assert(kept[k] == rest[k]);
                    } else if k > j {
                    }
                },
                None => {},
            }
        } else {
            assert(kept == rest);
        }
    }
}

/// The graph after each stage of the optimizer: propagation and folding, pruning, phi
/// simplification; the result is dead-code elimination applied to the last.
pub open spec fn stages(g: SpecCfg) -> (SpecCfg, SpecCfg, SpecCfg) {
    let g2 = propagated_spec(g);
    let g3 = prune_spec(g2);
    (g2, g3, simplify_spec(g3))
}

/// How a block of the optimized graph comes from a block of the input graph: a reachable block
/// keeps its id and its folded terminator, and its instructions are those of the input block
/// with constants propagated, phi edges from lost predecessors dropped, and dead ones removed.
pub proof fn lemma_block_correspondence(g: SpecCfg, cur: BlockId, i: int)
    requires
        find_block(g.blocks, cur) == Some(i),
        reachable_set(stages(g).0).contains(cur),
        analysis_spec(g).1.contains(cur),
    ensures
        ({
            let (g2, g3, g4) = stages(g);
            let h = optimize_spec(g).0;
            let vals = analysis_spec(g).0;
            let exec = analysis_spec(g).1;
            &&& 0 <= i < g.blocks.len()
            &&& find_block(g2.blocks, cur) == Some(i)
            &&& g2.blocks[i] == fold_block_spec(rewrite_block_spec(g.blocks[i], vals, exec), vals, exec)
            &&& find_block(h.blocks, cur) matches Some(j) && {
                &&& 0 <= j < h.blocks.len()
                &&& find_block(g3.blocks, cur) == Some(j)
                &&& g3.blocks[j] == g2.blocks[i]
                &&& h.blocks[j] == (SpecBlock {
                    id: cur,
                    instructions: simplify_block_spec(g3, g3.blocks[j]).instructions.filter(
                        keeps(used_values(h)),
                    ),
                    terminator: g2.blocks[i].terminator,
                })
            }
        }),
{
    let (g2, g3, g4) = stages(g);
    let h = optimize_spec(g).0;
    let vals = analysis_spec(g).0;
    let exec = analysis_spec(g).1;
    let g1 = rewrite_spec(g, vals, exec);
    lemma_find_block_from(g.blocks, cur, 0);
    lemma_find_block_same_ids(g.blocks, g1.blocks, cur, 0);
    lemma_find_block_same_ids(g1.blocks, g2.blocks, cur, 0);
    assert(g2.blocks[i] == fold_block_spec(g1.blocks[i], vals, exec));
    lemma_find_kept(g2.blocks, reachable_set(g2), cur, i);
    let j = find_block(g3.blocks, cur).unwrap();
    lemma_find_block_from(g3.blocks, cur, 0);
    lemma_find_block_same_ids(g3.blocks, g4.blocks, cur, 0);
    lemma_dce_result(g4);
    let u = used_values(h);
    assert(filtered_from(h, g4, u));
    assert forall|k: int| 0 <= k < g4.blocks.len() implies (#[trigger] g4.blocks[k]).id == h.blocks[k].id by {
        assert(h.blocks[k] == (SpecBlock {
            id: g4.blocks[k].id,
            instructions: g4.blocks[k].instructions.filter(keeps(u)),
            terminator: g4.blocks[k].terminator,
        }));
    }
    lemma_find_block_same_ids(g4.blocks, h.blocks, cur, 0);
    assert(h.blocks[j] == (SpecBlock {
        id: g4.blocks[j].id,
        instructions: g4.blocks[j].instructions.filter(keeps(u)),
        terminator: g4.blocks[j].terminator,
    }));
}


/// Every value a run has computed is one the analysis knows, with a lattice value above it.
pub open spec fn sound(rt: Map<ValueId, i64>, vals: Map<ValueId, Lattice>) -> bool {
    forall|id: ValueId|
        #[trigger] rt.contains_key(id) ==> vals.contains_key(id) && lattice_le(Lattice::Constant(rt[id]), vals[id])
}

/// Two runs agree on every value of `live` that the first has computed.
pub open spec fn agree(rt: Map<ValueId, i64>, other: Map<ValueId, i64>, live: Set<ValueId>) -> bool {
    forall|id: ValueId| #![trigger rt.contains_key(id)]
        live.contains(id) && rt.contains_key(id) ==> other.contains_key(id) && other[id] == rt[id]
}

pub(crate) proof fn lemma_le_trans(a: Lattice, b: Lattice, c: Lattice)
    requires
        lattice_le(a, b),
        lattice_le(b, c),
    ensures
        lattice_le(a, c),
{
}

/// An operand read after propagation gives what the unrewritten operand gave, and the analysis
/// allowed that value.
proof fn lemma_resolve_rewritten(
    o: Operand,
    rt: Map<ValueId, i64>,
    rt2: Map<ValueId, i64>,
    vals: Map<ValueId, Lattice>,
    used: Set<ValueId>,
)
    requires
        resolve_spec(rt, o) is Ok,
        sound(rt, vals),
        agree(rt, rt2, used),
        operand_uses(rewrite_operand_spec(o, vals)).subset_of(used),
    ensures
        resolve_spec(rt2, rewrite_operand_spec(o, vals)) == resolve_spec(rt, o),
        lattice_le(Lattice::Constant(resolve_spec(rt, o).unwrap()), lattice_of_spec(o, vals)),
{
    match o {
        Operand::Value(id) => {
            assert(rt.contains_key(id));
            match vals[id] {
                Lattice::Constant(c) => {},
                _ => {
                    assert(operand_uses(o).contains(id));
                },
            }
        },
        _ => {},
    }
}

proof fn lemma_phi_input_push(a: Seq<(BlockId, Operand)>, x: (BlockId, Operand), p: BlockId, k: int)
    requires
        0 <= k <= a.len(),
    ensures
        phi_input(a.push(x), p, k) == (match phi_input(a, p, k) {
            Some(o) => Some(o),
            None => if x.0 == p {
                Some(x.1)
            } else {
                None
            },
        }),
    decreases a.len() - k,
{
    if k < a.len() {
        assert(a.push(x)[k] == a[k]);
        lemma_phi_input_push(a, x, p, k + 1);
    } else {
        assert(a.push(x)[k] == x);
        assert(phi_input(a.push(x), p, k + 1) is None);
        assert(phi_input(a, p, k) is None);
    }
}

pub(crate) proof fn lemma_live_incomings_filter(s: Seq<(BlockId, Operand)>, n: int, preds: Seq<BlockId>)
    requires
        0 <= n <= s.len(),
    ensures
        live_incomings(s, n, preds) == s.subrange(0, n).filter(|q: (BlockId, Operand)| preds.contains(q.0)),
    decreases n,
{
    reveal(Seq::filter);
    let t = s.subrange(0, n);
    if n == 0 {
        assert(t =~= Seq::<(BlockId, Operand)>::empty());
    } else {
        lemma_live_incomings_filter(s, n - 1, preds);
        assert(t.drop_last() =~= s.subrange(0, n - 1));
        assert(t.last() == s[n - 1]);
    }
}

pub open spec fn rewrite_incoming(vals: Map<ValueId, Lattice>) -> spec_fn((BlockId, Operand)) -> (BlockId, Operand) {
    |q: (BlockId, Operand)| (q.0, rewrite_operand_spec(q.1, vals))
}

/// After propagation and dropping edges from blocks that are no longer predecessors, a phi
/// still reads, on an edge kept, the (propagated) operand it read before.
proof fn lemma_phi_input_transformed(
    inc: Seq<(BlockId, Operand)>,
    p: BlockId,
    preds: Seq<BlockId>,
    vals: Map<ValueId, Lattice>,
)
    requires
        preds.contains(p),
    ensures
        phi_input(inc.map_values(rewrite_incoming(vals)).filter(|q: (BlockId, Operand)| preds.contains(q.0)), p, 0)
            == (match phi_input(inc, p, 0) {
            Some(o) => Some(rewrite_operand_spec(o, vals)),
            None => None,
        }),
    decreases inc.len(),
{
    reveal(Seq::filter);
    let keep = |q: (BlockId, Operand)| preds.contains(q.0);
    if inc.len() > 0 {
        let init = inc.drop_last();
        let x = inc.last();
        lemma_phi_input_transformed(init, p, preds, vals);
        assert(inc =~= init.push(x));
        let m = inc.map_values(rewrite_incoming(vals));
        let mi = init.map_values(rewrite_incoming(vals));
        let y = rewrite_incoming(vals)(x);
        assert(m =~= mi.push(y));
        assert(m.drop_last() =~= mi);
        assert(m.last() == y);
        lemma_phi_input_push(init, x, p, 0);
        let fi = mi.filter(keep);
        if keep(y) {
            lemma_phi_input_push(fi, y, p, 0);
        }
    }
}

proof fn lemma_incoming_uses_prefix(a: Seq<(BlockId, Operand)>, b: Seq<(BlockId, Operand)>, n: int)
    requires
        0 <= n <= a.len(),
        n <= b.len(),
        forall|k: int| 0 <= k < n ==> a[k] == b[k],
    ensures
        incoming_uses(a, n) == incoming_uses(b, n),
    decreases n,
{
    if n > 0 {
        lemma_incoming_uses_prefix(a, b, n - 1);
    }
}

/// The operand a phi reads is among the operands of its edges.
proof fn lemma_phi_input_uses(a: Seq<(BlockId, Operand)>, p: BlockId)
    requires
        phi_input(a, p, 0) is Some,
    ensures
        operand_uses(phi_input(a, p, 0).unwrap()).subset_of(incoming_uses(a, a.len() as int)),
    decreases a.len(),
{
    if a.len() > 0 {
        let init = a.drop_last();
        let x = a.last();
        assert(a =~= init.push(x));
        lemma_phi_input_push(init, x, p, 0);
        lemma_incoming_uses_prefix(a, init, init.len() as int);
        if phi_input(init, p, 0) is Some {
            lemma_phi_input_uses(init, p);
        }
    }
}

/// The join of a phi's executable edges is above the operand it reads on an executable edge.
proof fn lemma_phi_lattice_input(
    inc: Seq<(BlockId, Operand)>,
    n: int,
    p: BlockId,
    vals: Map<ValueId, Lattice>,
    exec: Set<BlockId>,
)
    requires
        0 <= n <= inc.len(),
        exec.contains(p),
        phi_input(inc.subrange(0, n), p, 0) is Some,
    ensures
        lattice_le(
            lattice_of_spec(phi_input(inc.subrange(0, n), p, 0).unwrap(), vals),
            phi_lattice(inc, n, vals, exec),
        ),
    decreases n,
{
    let t = inc.subrange(0, n);
    let init = inc.subrange(0, n - 1);
    assert(t =~= init.push(inc[n - 1]));
    lemma_phi_input_push(init, inc[n - 1], p, 0);
    let before = phi_lattice(inc, n - 1, vals, exec);
    if phi_input(init, p, 0) is Some {
        lemma_phi_lattice_input(inc, n - 1, p, vals, exec);
        if exec.contains(inc[n - 1].0) {
            crate::cfg_opt::lemma_join_le(before, lattice_of_spec(inc[n - 1].1, vals));
            lemma_le_trans(
                lattice_of_spec(phi_input(init, p, 0).unwrap(), vals),
                before,
                phi_lattice(inc, n, vals, exec),
            );
        }
    } else {
        crate::cfg_opt::lemma_join_le(before, lattice_of_spec(inc[n - 1].1, vals));
    }
}

/// Reading one instruction's phi value on entry: none for other instructions.
pub open spec fn phi_step(x: SpecInstruction, predecessor: Option<BlockId>, rt: Map<ValueId, i64>) -> Result<
    Option<(ValueId, i64)>,
    CfgRuntimeError,
> {
    match x {
        SpecInstruction::Phi { result, incomings, .. } => match predecessor {
            None => Err(CfgRuntimeError::MissingPhiInput),
            Some(p) => match phi_input(incomings, p, 0) {
                None => Err(CfgRuntimeError::MissingPhiInput),
                Some(operand) => match resolve_spec(rt, operand) {
                    Err(e) => Err(e),
                    Ok(v) => Ok(Some((result, v))),
                },
            },
        },
        _ => Ok(None),
    }
}

proof fn lemma_phi_results_push(
    a: Seq<SpecInstruction>,
    x: SpecInstruction,
    predecessor: Option<BlockId>,
    rt: Map<ValueId, i64>,
    k: int,
)
    requires
        0 <= k <= a.len(),
    ensures
        phi_results(a.push(x), k, predecessor, rt) == (match phi_results(a, k, predecessor, rt) {
            Err(e) => Err(e),
            Ok(r) => match phi_step(x, predecessor, rt) {
                Err(e) => Err(e),
                Ok(None) => Ok(r),
                Ok(Some(q)) => Ok(r.push(q)),
            },
        }),
    decreases a.len() - k,
{
    if k < a.len() {
        assert(a.push(x)[k] == a[k]);
        lemma_phi_results_push(a, x, predecessor, rt, k + 1);
        match phi_results(a, k + 1, predecessor, rt) {
            Ok(r) => match phi_step(x, predecessor, rt) {
                Ok(Some(q)) => {
                    match a[k] {
                        SpecInstruction::Phi { .. } => {
                            match phi_step(a[k], predecessor, rt) {
                                Ok(Some(q0)) => {
                                    assert(seq![q0] + r.push(q) =~= (seq![q0] + r).push(q));
                                },
                                _ => {},
                            }
                        },
                        _ => {},
                    }
                },
                _ => {},
            },
            _ => {},
        }
    } else {
        assert(a.push(x)[k] == x);
        assert(phi_results(a.push(x), k + 1, predecessor, rt) == Ok::<Seq<(ValueId, i64)>, CfgRuntimeError>(
            Seq::empty(),
        ));
        match phi_step(x, predecessor, rt) {
            Ok(Some(q)) => {
                assert(seq![q] + Seq::<(ValueId, i64)>::empty() =~= Seq::<(ValueId, i64)>::empty().push(q));
            },
            _ => {},
        }
    }
}

/// Running one instruction after the ones before it.
pub open spec fn run_step(x: SpecInstruction, rt: Map<ValueId, i64>) -> Result<Map<ValueId, i64>, CfgRuntimeError> {
    match x {
        SpecInstruction::Binary { result, op, left, right } => match resolve_spec(rt, left) {
            Err(e) => Err(e),
            Ok(l) => match resolve_spec(rt, right) {
                Err(e) => Err(e),
                Ok(r) => match binary_spec(op, l, r) {
                    Err(e) => Err(e),
                    Ok(v) => Ok(rt.insert(result, v)),
                },
            },
        },
        _ => Ok(rt),
    }
}

proof fn lemma_run_push(a: Seq<SpecInstruction>, x: SpecInstruction, k: int, rt: Map<ValueId, i64>)
    requires
        0 <= k <= a.len(),
    ensures
        run_instructions(a.push(x), k, rt) == (match run_instructions(a, k, rt) {
            Err(e) => Err(e),
            Ok(m) => run_step(x, m),
        }),
    decreases a.len() - k,
{
    if k < a.len() {
        assert(a.push(x)[k] == a[k]);
        match a[k] {
            SpecInstruction::Binary { result, op, left, right } => {
                match resolve_spec(rt, left) {
                    Ok(l) => match resolve_spec(rt, right) {
                        Ok(r) => match binary_spec(op, l, r) {
                            Ok(v) => {
                                lemma_run_push(a, x, k + 1, rt.insert(result, v));
                            },
                            _ => {},
                        },
                        _ => {},
                    },
                    _ => {},
                }
            },
            _ => {
                lemma_run_push(a, x, k + 1, rt);
            },
        }
    } else {
        assert(a.push(x)[k] == x);
        match x {
            SpecInstruction::Binary { result, op, left, right } => {
                match resolve_spec(rt, left) {
                    Ok(l) => match resolve_spec(rt, right) {
                        Ok(r) => match binary_spec(op, l, r) {
                            Ok(v) => {
                                assert(run_instructions(a.push(x), k + 1, rt.insert(result, v)) == Ok::<
                                    Map<ValueId, i64>,
                                    CfgRuntimeError,
                                >(rt.insert(result, v)));
                            },
                            _ => {},
                        },
                        _ => {},
                    },
                    _ => {},
                }
            },
            _ => {
                assert(run_instructions(a.push(x), k + 1, rt) == Ok::<Map<ValueId, i64>, CfgRuntimeError>(rt));
            },
        }
    }
}


/// An instruction after propagation and phi simplification.
pub open spec fn transform(vals: Map<ValueId, Lattice>, preds: Seq<BlockId>) -> spec_fn(SpecInstruction) -> SpecInstruction {
    |x: SpecInstruction| simplify_instruction_spec(rewrite_instruction_spec(x, vals), preds)
}

/// A value read at run time is allowed by the analysis.
proof fn lemma_resolve_sound(o: Operand, rt: Map<ValueId, i64>, vals: Map<ValueId, Lattice>)
    requires
        resolve_spec(rt, o) is Ok,
        sound(rt, vals),
    ensures
        lattice_le(Lattice::Constant(resolve_spec(rt, o).unwrap()), lattice_of_spec(o, vals)),
{
    if let Operand::Value(id) = o {
        assert(rt.contains_key(id));
    }
}

proof fn lemma_binary_sound(op: crate::ast::BinaryOp, l: Lattice, r: Lattice, a: i64, b: i64)
    requires
        lattice_le(Lattice::Constant(a), l),
        lattice_le(Lattice::Constant(b), r),
        binary_spec(op, a, b) is Ok,
    ensures
        lattice_le(Lattice::Constant(binary_spec(op, a, b).unwrap()), evaluate_binary_spec(op, l, r)),
{
}

proof fn lemma_filter_push<A>(r: Seq<A>, q: A, keep: spec_fn(A) -> bool)
    ensures
        r.push(q).filter(keep) == (if keep(q) {
            r.filter(keep).push(q)
        } else {
            r.filter(keep)
        }),
{
    reveal(Seq::filter);
    assert(r.push(q).drop_last() =~= r);
    assert(r.push(q).last() == q);
}

pub open spec fn in_set(used: Set<ValueId>) -> spec_fn((ValueId, i64)) -> bool {
    |q: (ValueId, i64)| used.contains(q.0)
}

/// The phis of a block after optimization read the values they read before (those that
/// survive), and the analysis allowed every phi value.
proof fn lemma_phis_sim(
    s: Seq<SpecInstruction>,
    pred: Option<BlockId>,
    rt: Map<ValueId, i64>,
    rt2: Map<ValueId, i64>,
    vals: Map<ValueId, Lattice>,
    exec: Set<BlockId>,
    preds: Seq<BlockId>,
    used: Set<ValueId>,
)
    requires
        phi_results(s, 0, pred, rt) is Ok,
        sound(rt, vals),
        agree(rt, rt2, used),
        pred matches Some(p) ==> exec.contains(p) && preds.contains(p),
        forall|k: int| 0 <= k < s.len() ==> evaluate_instruction_spec(#[trigger] s[k], vals, exec) == vals,
        forall|k: int|
            0 <= k < s.len() && keeps(used)(transform(vals, preds)(#[trigger] s[k])) ==> instruction_uses(
                transform(vals, preds)(s[k]),
            ).subset_of(used),
    ensures
        phi_results(s.map_values(transform(vals, preds)).filter(keeps(used)), 0, pred, rt2) == Ok::<
            Seq<(ValueId, i64)>,
            CfgRuntimeError,
        >(phi_results(s, 0, pred, rt).unwrap().filter(in_set(used))),
        forall|j: int|
            0 <= j < phi_results(s, 0, pred, rt).unwrap().len() ==> vals.contains_key(
                (#[trigger] phi_results(s, 0, pred, rt).unwrap()[j]).0,
            ) && lattice_le(Lattice::Constant(phi_results(s, 0, pred, rt).unwrap()[j].1), vals[phi_results(s, 0, pred, rt).unwrap()[j].0]),
    decreases s.len(),
{
    reveal(Seq::filter);
    let t = transform(vals, preds);
    if s.len() == 0 {
        assert(s.map_values(t) =~= Seq::<SpecInstruction>::empty());
    } else {
        let a = s.drop_last();
        let x = s.last();
        assert(s =~= a.push(x));
        lemma_phi_results_push(a, x, pred, rt, 0);
        assert forall|k: int| 0 <= k < a.len() implies #[trigger] a[k] == s[k] by {}
        lemma_phis_sim(a, pred, rt, rt2, vals, exec, preds, used);
        let ra = phi_results(a, 0, pred, rt).unwrap();
        let ma = a.map_values(t);
        assert(s.map_values(t) =~= ma.push(t(x)));
        lemma_filter_push(ma, t(x), keeps(used));
        let fa = ma.filter(keeps(used));
        assert(s[s.len() - 1] == x);
        match x {
            SpecInstruction::Phi { result, symbol_id, incomings } => {
                let p = pred.unwrap();
                let o = phi_input(incomings, p, 0).unwrap();
                let v = resolve_spec(rt, o).unwrap();
                let q = (result, v);
                assert(phi_results(s, 0, pred, rt) == Ok::<Seq<(ValueId, i64)>, CfgRuntimeError>(ra.push(q)));
                lemma_filter_push(ra, q, in_set(used));
                let rewritten = incomings.map_values(rewrite_incoming(vals));
                assert(incomings.map_values(
                    |pq: (BlockId, Operand)| (pq.0, rewrite_operand_spec(pq.1, vals)),
                ) =~= rewritten);
                let tinc = live_incomings(rewritten, rewritten.len() as int, preds);
                lemma_live_incomings_filter(rewritten, rewritten.len() as int, preds);
                assert(rewritten.subrange(0, rewritten.len() as int) =~= rewritten);
                assert(t(x) == SpecInstruction::Phi { result, symbol_id, incomings: tinc });
                lemma_phi_input_transformed(incomings, p, preds, vals);
                // soundness of the value read
                assert(evaluate_instruction_spec(s[s.len() - 1], vals, exec) == vals);
                lemma_merge_stable(vals, result, phi_lattice(incomings, incomings.len() as int, vals, exec));
                assert(incomings.subrange(0, incomings.len() as int) =~= incomings);
                lemma_phi_lattice_input(incomings, incomings.len() as int, p, vals, exec);
                lemma_resolve_sound(o, rt, vals);
                lemma_le_trans(
                    Lattice::Constant(v),
                    lattice_of_spec(o, vals),
                    phi_lattice(incomings, incomings.len() as int, vals, exec),
                );
                lemma_le_trans(
                    Lattice::Constant(v),
                    phi_lattice(incomings, incomings.len() as int, vals, exec),
                    vals[result],
                );
                if keeps(used)(t(x)) {
                    lemma_phi_results_push(fa, t(x), pred, rt2, 0);
                    lemma_phi_input_uses(tinc, p);
                    assert(instruction_uses(t(x)).subset_of(used));
                    lemma_resolve_rewritten(o, rt, rt2, vals, used);
                }
                assert forall|j: int| 0 <= j < ra.push(q).len() implies vals.contains_key(
                    (#[trigger] ra.push(q)[j]).0,
                ) && lattice_le(Lattice::Constant(ra.push(q)[j].1), vals[ra.push(q)[j].0]) by {
                    if j < ra.len() {
                        assert(ra.push(q)[j] == ra[j]);
                    }
                }
            },
            _ => {
                assert(phi_step(x, pred, rt) == Ok::<Option<(ValueId, i64)>, CfgRuntimeError>(None));
                if keeps(used)(t(x)) {
                    lemma_phi_results_push(fa, t(x), pred, rt2, 0);
                }
            },
        }
    }
}

/// Recording the phi values keeps the runs in agreement and the values allowed.
proof fn lemma_record_sim(
    rt: Map<ValueId, i64>,
    rt2: Map<ValueId, i64>,
    r: Seq<(ValueId, i64)>,
    vals: Map<ValueId, Lattice>,
    used: Set<ValueId>,
)
    requires
        sound(rt, vals),
        agree(rt, rt2, used),
        forall|j: int|
            0 <= j < r.len() ==> vals.contains_key((#[trigger] r[j]).0) && lattice_le(Lattice::Constant(r[j].1), vals[r[j].0]),
    ensures
        sound(record(rt, r), vals),
        agree(record(rt, r), record(rt2, r.filter(in_set(used))), used),
    decreases r.len(),
{
    if r.len() > 0 {
        let init = r.drop_last();
        let q = r.last();
        assert(r =~= init.push(q));
        assert forall|j: int| 0 <= j < init.len() implies vals.contains_key((#[trigger] init[j]).0) && lattice_le(
            Lattice::Constant(init[j].1),
            vals[init[j].0],
        ) by {
            assert(init[j] == r[j]);
        }
        lemma_record_sim(rt, rt2, init, vals, used);
        lemma_filter_push(init, q, in_set(used));
        let fi = init.filter(in_set(used));
        assert(r[r.len() - 1] == q);
        if used.contains(q.0) {
            assert(fi.push(q).drop_last() =~= fi);
            assert(fi.push(q).last() == q);
        }
    }
}

/// The instructions of a block after optimization compute the values they computed before
/// (those that survive), and the analysis allowed every value.
proof fn lemma_run_sim(
    s: Seq<SpecInstruction>,
    rt: Map<ValueId, i64>,
    rt2: Map<ValueId, i64>,
    vals: Map<ValueId, Lattice>,
    exec: Set<BlockId>,
    preds: Seq<BlockId>,
    used: Set<ValueId>,
)
    requires
        run_instructions(s, 0, rt) is Ok,
        sound(rt, vals),
        agree(rt, rt2, used),
        forall|k: int| 0 <= k < s.len() ==> evaluate_instruction_spec(#[trigger] s[k], vals, exec) == vals,
        forall|k: int|
            0 <= k < s.len() && keeps(used)(transform(vals, preds)(#[trigger] s[k])) ==> instruction_uses(
                transform(vals, preds)(s[k]),
            ).subset_of(used),
    ensures
        run_instructions(s.map_values(transform(vals, preds)).filter(keeps(used)), 0, rt2) is Ok,
        sound(run_instructions(s, 0, rt).unwrap(), vals),
        agree(
            run_instructions(s, 0, rt).unwrap(),
            run_instructions(s.map_values(transform(vals, preds)).filter(keeps(used)), 0, rt2).unwrap(),
            used,
        ),
    decreases s.len(),
{
    reveal(Seq::filter);
    let t = transform(vals, preds);
    if s.len() == 0 {
        assert(s.map_values(t) =~= Seq::<SpecInstruction>::empty());
    } else {
        let a = s.drop_last();
        let x = s.last();
        assert(s =~= a.push(x));
        lemma_run_push(a, x, 0, rt);
        assert forall|k: int| 0 <= k < a.len() implies #[trigger] a[k] == s[k] by {}
        lemma_run_sim(a, rt, rt2, vals, exec, preds, used);
        let ma = a.map_values(t);
        assert(s.map_values(t) =~= ma.push(t(x)));
        lemma_filter_push(ma, t(x), keeps(used));
        let fa = ma.filter(keeps(used));
        let m = run_instructions(a, 0, rt).unwrap();
        let m2 = run_instructions(fa, 0, rt2).unwrap();
        assert(s[s.len() - 1] == x);
        if keeps(used)(t(x)) {
            lemma_run_push(fa, t(x), 0, rt2);
        }
        match x {
            SpecInstruction::Binary { result, op, left, right } => {
                let l = resolve_spec(m, left).unwrap();
                let r = resolve_spec(m, right).unwrap();
                let v = binary_spec(op, l, r).unwrap();
                assert(evaluate_instruction_spec(s[s.len() - 1], vals, exec) == vals);
                let next = evaluate_binary_spec(op, lattice_of_spec(left, vals), lattice_of_spec(right, vals));
                lemma_merge_stable(vals, result, next);
                lemma_resolve_sound(left, m, vals);
                lemma_resolve_sound(right, m, vals);
                lemma_binary_sound(op, lattice_of_spec(left, vals), lattice_of_spec(right, vals), l, r);
                lemma_le_trans(Lattice::Constant(v), next, vals[result]);
                if keeps(used)(t(x)) {
                    assert(instruction_uses(t(x)).subset_of(used));
                    lemma_resolve_rewritten(left, m, m2, vals, used);
                    lemma_resolve_rewritten(right, m, m2, vals, used);
                }
            },
            _ => {},
        }
    }
}


pub(crate) proof fn lemma_instruction_uses_in(s: Seq<SpecInstruction>, n: int, k: int)
    requires
        0 <= k < n <= s.len(),
    ensures
        instruction_uses(s[k]).subset_of(instructions_uses(s, n)),
    decreases n,
{
    if k < n - 1 {
        lemma_instruction_uses_in(s, n - 1, k);
    }
}

/// The values a block reads are among the values its graph reads.
pub(crate) proof fn lemma_block_uses_in(blocks: Seq<SpecBlock>, n: int, j: int)
    requires
        0 <= j < n <= blocks.len(),
    ensures
        instructions_uses(blocks[j].instructions, blocks[j].instructions.len() as int).subset_of(blocks_uses(blocks, n)),
        crate::cfg_opt::terminator_uses(blocks[j].terminator).subset_of(blocks_uses(blocks, n)),
    decreases n,
{
    if j < n - 1 {
        lemma_block_uses_in(blocks, n - 1, j);
    }
}

/// A reachable block of the propagated graph is a predecessor, in the pruned graph, of each
/// block it passes control to.
pub(crate) proof fn lemma_pruned_predecessor(g2: SpecCfg, p: BlockId, cur: BlockId)
    requires
        reachable_set(g2).contains(p),
        find_block(g2.blocks, p) is Some,
        successors_spec(g2, p).contains(cur),
    ensures
        predecessors_spec(prune_spec(g2), cur).contains(p),
{
    let ip = find_block(g2.blocks, p).unwrap();
    lemma_find_kept(g2.blocks, reachable_set(g2), p, ip);
    let g3 = prune_spec(g2);
    assert(successors_spec(g3, p) == successors_spec(g2, p));
    crate::dominance::lemma_successor_predecessor(g3, p, cur);
}

/// A run of the optimized graph from a block it keeps, with values that agree on what it reads,
/// ends as the run of the input graph does, whenever that run succeeds.
proof fn lemma_run_preserved(
    g: SpecCfg,
    fuel: nat,
    cur: BlockId,
    pred: Option<BlockId>,
    rt: Map<ValueId, i64>,
    rt2: Map<ValueId, i64>,
)
    requires
        run_spec(g, fuel, cur, pred, rt) is Ok,
        analysis_spec(g).1.contains(cur),
        reachable_set(stages(g).0).contains(cur),
        pred matches Some(p) ==> {
            &&& analysis_spec(g).1.contains(p)
            &&& reachable_set(stages(g).0).contains(p)
            &&& find_block(stages(g).0.blocks, p) is Some
            &&& successors_spec(stages(g).0, p).contains(cur)
        },
        sound(rt, analysis_spec(g).0),
        agree(rt, rt2, used_values(optimize_spec(g).0)),
    ensures
        run_spec(optimize_spec(g).0, fuel, cur, pred, rt2) == run_spec(g, fuel, cur, pred, rt),
    decreases fuel,
{
    let (g2, g3, g4) = stages(g);
    let h = optimize_spec(g).0;
    let vals = analysis_spec(g).0;
    let exec = analysis_spec(g).1;
    let used = used_values(h);
    let i = find_block(g.blocks, cur).unwrap();
    lemma_block_correspondence(g, cur, i);
    let j = find_block(h.blocks, cur).unwrap();
    let gb = g.blocks[i];
    let hb = h.blocks[j];
    lemma_find_block_from(g.blocks, cur, 0);
    assert(gb.id == cur);
    let preds = predecessors_spec(g3, cur);
    let t = transform(vals, preds);
    assert(g3.blocks[j].id == cur);
    assert(g2.blocks[i].instructions == gb.instructions.map_values(
        |x: SpecInstruction| rewrite_instruction_spec(x, vals),
    ));
    assert(simplify_block_spec(g3, g3.blocks[j]).instructions =~= gb.instructions.map_values(t));
    assert(hb.instructions == gb.instructions.map_values(t).filter(keeps(used)));
    let ts = gb.instructions.map_values(t);
    // the facts the block simulations need
    assert forall|k: int| 0 <= k < gb.instructions.len() implies evaluate_instruction_spec(
        #[trigger] gb.instructions[k],
        vals,
        exec,
    ) == vals by {
        lemma_stable_block(g, i, k);
    }
    lemma_block_uses_in(h.blocks, h.blocks.len() as int, j);
    assert forall|k: int|
        0 <= k < gb.instructions.len() && keeps(used)(t(#[trigger] gb.instructions[k])) implies instruction_uses(
            t(gb.instructions[k]),
        ).subset_of(used) by {
        assert(ts[k] == t(gb.instructions[k]));
        ts.lemma_filter_contains(keeps(used), k);
        let f = ts.filter(keeps(used));
        let m = choose|m: int| 0 <= m < f.len() && f[m] == ts[k];
        lemma_instruction_uses_in(f, f.len() as int, m);
    }
    if let Some(p) = pred {
        lemma_pruned_predecessor(g2, p, cur);
    }
    // the phis
    let r = phi_results(gb.instructions, 0, pred, rt).unwrap();
    lemma_phis_sim(gb.instructions, pred, rt, rt2, vals, exec, preds, used);
    lemma_record_sim(rt, rt2, r, vals, used);
    let entered = record(rt, r);
    let entered2 = record(rt2, r.filter(in_set(used)));
    // the other instructions
    lemma_run_sim(gb.instructions, entered, entered2, vals, exec, preds, used);
    let after = run_instructions(gb.instructions, 0, entered).unwrap();
    let after2 = run_instructions(hb.instructions, 0, entered2).unwrap();
    assert(block_values(gb, pred, rt) == Ok::<Map<ValueId, i64>, CfgRuntimeError>(after));
    assert(block_values(hb, pred, rt2) == Ok::<Map<ValueId, i64>, CfgRuntimeError>(after2));
    // the terminator
    lemma_block_fixed(g, i);
    let term2 = g2.blocks[i].terminator;
    assert(successors_spec(g2, cur) == terminator_targets(term2));
    match gb.terminator {
        Some(Terminator::Return(o)) => {
            lemma_resolve_rewritten(o, after, after2, vals, used);
        },
        Some(Terminator::Jump(target)) => {
            assert(terminator_targets(term2)[0] == target);
            crate::cfg::lemma_reachable_step(g2, cur, target);
            assert(reachable_set(g2).contains(target));
            lemma_run_preserved(g, (fuel - 1) as nat, target, Some(cur), after, after2);
        },
        Some(Terminator::Branch { condition, then_block, else_block }) => {
            let cv = resolve_spec(after, condition).unwrap();
            let target = if cv != 0 {
                then_block
            } else {
                else_block
            };
            lemma_resolve_sound(condition, after, vals);
            lemma_resolve_rewritten(condition, after, after2, vals, used);
            match lattice_of_spec(rewrite_operand_spec(condition, vals), vals) {
                Lattice::Constant(k) => {
                    assert(terminator_targets(term2)[0] == target);
                },
                _ => {
                    assert(terminator_targets(term2)[0] == then_block);
                    assert(terminator_targets(term2)[1] == else_block);
                },
            }
            crate::cfg::lemma_reachable_step(g2, cur, target);
            assert(reachable_set(g2).contains(target));
            lemma_run_preserved(g, (fuel - 1) as nat, target, Some(cur), after, after2);
        },
        None => {},
    }
}

/// Optimizing a graph preserves the value every successful run returns: if running the graph
/// returns a value, running the optimized graph returns the same value.
pub proof fn lemma_optimize_preserves_result(g: SpecCfg)
    requires
        execute_spec(g) is Ok,
    ensures
        execute_spec(optimize_spec(g).0) == execute_spec(g),
{
    let (g2, g3, g4) = stages(g);
    let h = optimize_spec(g).0;
    lemma_analysis_fixpoint(g);
    crate::cfg::lemma_entry_reachable(g2);
    assert(reachable_set(g2).contains(g2.entry));
    lemma_dce_result(g4);
    assert(h.entry == g.entry);
    lemma_run_preserved(g, step_limit(), g.entry, None, Map::empty(), Map::empty());
}

} // verus!
