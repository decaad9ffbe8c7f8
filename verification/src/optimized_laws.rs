use vstd::prelude::*;

use crate::build_laws::{
    all_terminated, built_graph, lemma_built_graph_within_step_limit, lemma_returning_graph_runs_to_return, phi_free, phi_sound,
    phis_sound, sole_jumps, targets, targets_in_range,
};
use crate::cfg::{
    build_statements_spec, find_block, fits, initial_build_state, keep_blocks, lemma_find_block_from,
    is_entry_path, lemma_reachable_step, predecessors_spec, reachable_spec, prune_spec, reachable_set, successors_spec, terminator_targets,
    BlockId, Operand, SpecBlock, SpecCfg, SpecInstruction, Terminator, ValueId,
};
use crate::cfg_opt::{
    analysis_spec, dce_spec, fold_block_spec, incoming_uses, instruction_uses, instructions_uses, live_incomings,
    operand_uses, optimize_spec, result_key, propagated_spec, rewrite_block_spec, rewrite_instruction_spec,
    rewrite_operand_spec, simplify_block_spec, simplify_instruction_spec, simplify_spec, used_values, Lattice,
};
use crate::cfg_opt_laws::{keeps, lemma_find_kept};
use crate::cfg_runtime::{
    block_values, execute_spec, phi_results, record, resolve_spec, run_instructions, run_spec, step_limit,
    CfgRuntimeError,
};
use crate::check_laws::typed_block_returns;
use crate::result_laws::computes;
use crate::types::SpecTypedStatement;
use crate::value_laws::{
    all_computed, binaries_read, block_reads_ok, computed, computed_by, edge_reads_ok, known_at,
    lemma_built_annotation, lemma_computed_push, lemma_instructions_read, lemma_no_phis, lemma_phis_ok,
    lemma_record_keys, operand_in, phi_values, phis_read, reads_available, refers_to_missing, terminator_reads,
};

verus! {

/// The values known on leaving the block at position `j` of `h`, with `avail` giving what is
/// available on entry to each block id.
pub open spec fn known_in(h: SpecCfg, avail: spec_fn(BlockId) -> Set<ValueId>, j: int) -> Set<ValueId> {
    avail(h.blocks[j].id).union(computed(h.blocks[j].instructions))
}

/// Whether every phi of a block has an input for the edge from the block with id `p`.
pub open spec fn phis_have_input(b: SpecBlock, p: BlockId) -> bool {
    forall|k: int|
        0 <= k < b.instructions.len() && (#[trigger] b.instructions[k]) is Phi ==> exists|i: int|
            0 <= i < b.instructions[k]->Phi_incomings.len() && b.instructions[k]->Phi_incomings[i].0 == p
}

/// Whether the block at position `j` reads only values available on entry or computed before.
pub open spec fn block_ok_in(h: SpecCfg, avail: spec_fn(BlockId) -> Set<ValueId>, j: int) -> bool {
    &&& binaries_read(h.blocks[j], avail(h.blocks[j].id))
    &&& terminator_reads(h.blocks[j].terminator, known_in(h, avail, j))
}

/// Whether an edge from the block at position `j` to id `y`, if there is one, leads to a block
/// that exists, brings every value available there, and gives each of its phis a known input.
pub open spec fn edge_ok_in(h: SpecCfg, avail: spec_fn(BlockId) -> Set<ValueId>, j: int, y: BlockId) -> bool {
    terminator_targets(h.blocks[j].terminator).contains(y) ==> (find_block(h.blocks, y) matches Some(t) && {
        &&& avail(y).subset_of(known_in(h, avail, j))
        &&& phis_read(h.blocks[t], h.blocks[j].id as int, known_in(h, avail, j))
        &&& phis_have_input(h.blocks[t], h.blocks[j].id)
    })
}

/// Whether `avail` shows that runs of `h` read only computed values: each block reads what is
/// available on entry to it or what it computed before, each edge brings what its target needs,
/// and the entry block, entered with nothing computed, holds no phi.
pub open spec fn runs_read_available(h: SpecCfg, avail: spec_fn(BlockId) -> Set<ValueId>) -> bool {
    &&& forall|j: int| 0 <= j < h.blocks.len() ==> #[trigger] block_ok_in(h, avail, j)
    &&& forall|j: int, y: BlockId| 0 <= j < h.blocks.len() ==> #[trigger] edge_ok_in(h, avail, j, y)
    &&& find_block(h.blocks, h.entry) matches Some(e) && phi_free(h.blocks[e])
    &&& avail(h.entry) == Set::<ValueId>::empty()
}

/// A run of a graph whose reads are all available, from a block that exists, never refers to a
/// missing block, value or phi input.
proof fn lemma_run_in(
    h: SpecCfg,
    avail: spec_fn(BlockId) -> Set<ValueId>,
    fuel: nat,
    current: BlockId,
    predecessor: Option<BlockId>,
    values: Map<ValueId, i64>,
    came: Set<ValueId>,
)
    requires
        runs_read_available(h, avail),
        find_block(h.blocks, current) is Some,
        all_computed(avail(current), values),
        predecessor is None ==> phi_free(h.blocks[find_block(h.blocks, current)->Some_0]),
        predecessor matches Some(p) ==> {
            &&& phis_have_input(h.blocks[find_block(h.blocks, current)->Some_0], p)
            &&& phis_read(h.blocks[find_block(h.blocks, current)->Some_0], p as int, came)
            &&& all_computed(came, values)
        },
    ensures
        !refers_to_missing(run_spec(h, fuel, current, predecessor, values)),
    decreases fuel,
{
    if fuel > 0 {
        let j = find_block(h.blocks, current)->Some_0;
        lemma_find_block_from(h.blocks, current, 0);
        let b = h.blocks[j];
        assert(b.id == current);
        assert(block_ok_in(h, avail, j));
        let base = avail(current).union(phi_values(b.instructions));
        let entered = match predecessor {
            None => {
                lemma_no_phis(b.instructions, 0, predecessor, values);
                assert(record(values, Seq::<(ValueId, i64)>::empty()) == values);
                assert(phi_values(b.instructions) =~= Set::<ValueId>::empty()) by {
                    assert forall|v: ValueId| !phi_values(b.instructions).contains(v) by {
                        if phi_values(b.instructions).contains(v) {
                            let q = choose|q: int| 0 <= q < b.instructions.len() && (#[trigger] b.instructions[q]) is Phi
                                && b.instructions[q]->Phi_result == v;
                        }
                    }
                }
                values
            },
            Some(p) => {
                lemma_phis_ok(b, 0, p, values, came);
                let results = phi_results(b.instructions, 0, predecessor, values)->Ok_0;
                lemma_record_keys(values, results);
                let entered = record(values, results);
                assert forall|v: ValueId| #[trigger] base.contains(v) implies entered.contains_key(v) by {
                    if avail(current).contains(v) {
                        assert(values.contains_key(v));
                    } else {
                        let q = choose|q: int| 0 <= q < b.instructions.len() && (#[trigger] b.instructions[q]) is Phi
                            && b.instructions[q]->Phi_result == v;
                        let i = choose|i: int| 0 <= i < results.len() && results[i].0 == b.instructions[q]->Phi_result;
                        assert(entered.contains_key(results[i].0));
                    }
                }
                entered
            },
        };
        assert(phi_results(b.instructions, 0, predecessor, values) is Ok);
        assert(entered == record(values, phi_results(b.instructions, 0, predecessor, values)->Ok_0));
        assert(all_computed(base, entered)) by {
            if predecessor is None {
                assert forall|v: ValueId| #[trigger] base.contains(v) implies entered.contains_key(v) by {
                    assert(avail(current).contains(v));
                }
            }
        }
        assert(binaries_read(b, base)) by {
            assert forall|k: int| 0 <= k < b.instructions.len() && (#[trigger] b.instructions[k]) is Binary implies {
                let known = base.union(computed(b.instructions.subrange(0, k)));
                &&& operand_in(b.instructions[k]->Binary_left, known)
                &&& operand_in(b.instructions[k]->Binary_right, known)
            } by {
                let narrow = avail(current).union(computed(b.instructions.subrange(0, k)));
                assert(narrow.subset_of(base.union(computed(b.instructions.subrange(0, k)))));
            }
        }
        assert(b.instructions.subrange(0, 0) =~= Seq::<SpecInstruction>::empty());
        assert(computed(Seq::<SpecInstruction>::empty()) =~= Set::<ValueId>::empty());
        assert(base.union(computed(b.instructions.subrange(0, 0))) =~= base);
        lemma_instructions_read(b, 0, entered, base);
        assert(block_values(b, predecessor, values) == run_instructions(b.instructions, 0, entered));
        if let Ok(after) = block_values(b, predecessor, values) {
            let known = known_in(h, avail, j);
            assert(all_computed(known, after)) by {
                assert forall|v: ValueId| #[trigger] known.contains(v) implies after.contains_key(v) by {
                    assert(base.union(computed(b.instructions)).contains(v));
                }
            }
            match b.terminator {
                Some(Terminator::Jump(target)) => {
                    assert(terminator_targets(b.terminator)[0] == target);
                    lemma_run_in_edge(h, avail, fuel, j, after, target);
                },
                Some(Terminator::Branch { condition, then_block, else_block }) => {
                    if let Ok(c) = resolve_spec(after, condition) {
                        let next = if c != 0 { then_block } else { else_block };
                        assert(terminator_targets(b.terminator).contains(next)) by {
                            if c != 0 {
                                assert(terminator_targets(b.terminator)[0] == then_block);
                            } else {
                                assert(terminator_targets(b.terminator)[1] == else_block);
                            }
                        }
                        lemma_run_in_edge(h, avail, fuel, j, after, next);
                    }
                },
                _ => {},
            }
        }
    }
}

proof fn lemma_run_in_edge(
    h: SpecCfg,
    avail: spec_fn(BlockId) -> Set<ValueId>,
    fuel: nat,
    j: int,
    after: Map<ValueId, i64>,
    target: BlockId,
)
    requires
        fuel > 0,
        runs_read_available(h, avail),
        0 <= j < h.blocks.len(),
        terminator_targets(h.blocks[j].terminator).contains(target),
        all_computed(known_in(h, avail, j), after),
    ensures
        !refers_to_missing(run_spec(h, (fuel - 1) as nat, target, Some(h.blocks[j].id), after)),
    decreases fuel, 0nat,
{
    assert(edge_ok_in(h, avail, j, target));
    assert(all_computed(avail(target), after)) by {
        assert forall|v: ValueId| #[trigger] avail(target).contains(v) implies after.contains_key(v) by {
            assert(known_in(h, avail, j).contains(v));
        }
    }
    lemma_run_in(h, avail, (fuel - 1) as nat, target, Some(h.blocks[j].id), after, known_in(h, avail, j));
}

/// Whether block ids increase strictly along the blocks.
pub open spec fn ids_increasing(blocks: Seq<SpecBlock>) -> bool {
    forall|i: int, j: int| 0 <= i < j < blocks.len() ==> #[trigger] blocks[i].id < #[trigger] blocks[j].id
}

/// What is available on entry to each block id, from an annotation by position.
pub open spec fn by_id(avail: Seq<Set<ValueId>>) -> spec_fn(BlockId) -> Set<ValueId> {
    |x: BlockId| if (x as int) < avail.len() { avail[x as int] } else { Set::<ValueId>::empty() }
}

/// Pruning a graph whose block ids are positions, with reads available by position, keeps the
/// reads available by id.
pub(crate) proof fn lemma_pruned_reads(raw: SpecCfg, avail: Seq<Set<ValueId>>)
    requires
        raw.entry == 0,
        0 < raw.blocks.len() <= u32::MAX + 1,
        forall|q: int| 0 <= q < raw.blocks.len() ==> #[trigger] raw.blocks[q].id == q as BlockId,
        targets_in_range(raw.blocks),
        phis_sound(raw.blocks),
        reads_available(raw.blocks, avail),
        avail[0] == Set::<ValueId>::empty(),
        phi_free(raw.blocks[0]),
    ensures
        runs_read_available(prune_spec(raw), by_id(avail)),
        ids_increasing(prune_spec(raw).blocks),
{
    let g = prune_spec(raw);
    let blocks = raw.blocks;
    let reach = reachable_set(raw);
    let a = by_id(avail);
    crate::build_laws::lemma_kept_blocks(blocks, reach);
    assert forall|x: int| 0 <= x < blocks.len() implies find_block(blocks, x as BlockId) == Some(x) by {
        lemma_find_block_from(blocks, x as BlockId, 0);
        assert(blocks[x].id == x as BlockId);
        if let Some(i) = find_block(blocks, x as BlockId) {
            assert(blocks[i].id == i as BlockId);
            assert(i <= x);
        }
    }
    assert forall|j: int| 0 <= j < g.blocks.len() implies #[trigger] block_ok_in(g, a, j) by {
        let x = g.blocks[j].id as int;
        assert(block_reads_ok(blocks, avail, x));
        assert(known_in(g, a, j) == known_at(blocks, avail, x));
    }
    assert forall|j: int, y: BlockId| 0 <= j < g.blocks.len() implies #[trigger] edge_ok_in(g, a, j, y) by {
        let b = g.blocks[j];
        let x = b.id as int;
        if terminator_targets(b.terminator).contains(y) {
            assert(b == blocks[x]);
            assert((y as int) < blocks.len());
            let yi = y as int;
            assert(targets(blocks[x], yi));
            assert(edge_reads_ok(blocks, avail, x, yi));
            assert(known_in(g, a, j) == known_at(blocks, avail, x));
            assert(find_block(blocks, b.id) == Some(x));
            assert(successors_spec(raw, b.id) == terminator_targets(blocks[x].terminator));
            lemma_reachable_step(raw, b.id, y);
            assert(find_block(blocks, y) == Some(yi));
            lemma_find_kept(blocks, reach, y, yi);
            let t = find_block(g.blocks, y)->Some_0;
            assert(g.blocks[t] == blocks[yi]);
            assert forall|k: int|
                0 <= k < blocks[yi].instructions.len() && (#[trigger] blocks[yi].instructions[k]) is Phi implies exists|i: int|
                0 <= i < blocks[yi].instructions[k]->Phi_incomings.len() && blocks[yi].instructions[k]->Phi_incomings[i].0
                    == b.id by {
                let incomings = blocks[yi].instructions[k]->Phi_incomings;
                assert(phi_sound(blocks, yi, incomings));
                assert(sole_jumps(blocks, yi, incomings[0].0 as int, incomings[1].0 as int));
                if x == incomings[0].0 as int {
                    assert(incomings[0].0 == b.id);
                } else {
                    assert(incomings[1].0 == b.id);
                }
            }
        }
    }
    crate::cfg::lemma_entry_reachable(raw);
    lemma_find_kept(blocks, reach, 0, 0);
    assert(g.entry == 0);
}

proof fn lemma_computed_map(s: Seq<SpecInstruction>, f: spec_fn(SpecInstruction) -> SpecInstruction)
    requires
        forall|i: SpecInstruction| #[trigger] computed_by(f(i)) == computed_by(i),
    ensures
        computed(s.map_values(f)) == computed(s),
        forall|k: int| 0 <= k <= s.len() ==> #[trigger] computed(s.map_values(f).subrange(0, k)) == computed(
            s.subrange(0, k),
        ),
    decreases s.len(),
{
    if s.len() > 0 {
        lemma_computed_map(s.drop_last(), f);
        assert(s.map_values(f).drop_last() =~= s.drop_last().map_values(f));
    }
    assert forall|k: int| 0 <= k <= s.len() implies #[trigger] computed(s.map_values(f).subrange(0, k)) == computed(
        s.subrange(0, k),
    ) by {
        let t = s.subrange(0, k);
        assert(s.map_values(f).subrange(0, k) =~= t.map_values(f));
        if k < s.len() {
            lemma_computed_map(t, f);
        } else {
            assert(t =~= s);
        }
    }
}

/// Propagation and branch folding keep what a block computes, read no value it did not read,
/// jump nowhere it did not jump, and keep its phis' edges.
proof fn lemma_propagated_block(b: SpecBlock, values: Map<ValueId, Lattice>, executable: Set<BlockId>)
    ensures
        ({
            let b2 = fold_block_spec(rewrite_block_spec(b, values, executable), values, executable);
            &&& b2.id == b.id
            &&& b2.instructions.len() == b.instructions.len()
            &&& computed(b2.instructions) == computed(b.instructions)
            &&& forall|k: int| 0 <= k <= b.instructions.len() ==> #[trigger] computed(b2.instructions.subrange(0, k))
                == computed(b.instructions.subrange(0, k))
            &&& forall|known: Set<ValueId>| #[trigger] binaries_read(b, known) ==> binaries_read(b2, known)
            &&& forall|known: Set<ValueId>| #[trigger] terminator_reads(b.terminator, known) ==> terminator_reads(
                b2.terminator,
                known,
            )
            &&& forall|y: BlockId| #[trigger] terminator_targets(b2.terminator).contains(y) ==> terminator_targets(
                b.terminator,
            ).contains(y)
            &&& forall|p: int, known: Set<ValueId>| #[trigger] phis_read(b, p, known) ==> phis_read(b2, p, known)
            &&& forall|p: BlockId| #[trigger] phis_have_input(b, p) ==> phis_have_input(b2, p)
            &&& phi_free(b) ==> phi_free(b2)
        }),
{
    let b2 = fold_block_spec(rewrite_block_spec(b, values, executable), values, executable);
    if executable.contains(b.id) {
        let f = |i: SpecInstruction| rewrite_instruction_spec(i, values);
        assert forall|i: SpecInstruction| #[trigger] computed_by(f(i)) == computed_by(i) by {}
        lemma_computed_map(b.instructions, f);
        assert(b2.instructions == b.instructions.map_values(f));
        assert forall|known: Set<ValueId>| #[trigger] binaries_read(b, known) implies binaries_read(b2, known) by {
            assert forall|k: int| 0 <= k < b2.instructions.len() && (#[trigger] b2.instructions[k]) is Binary implies {
                let kn = known.union(computed(b2.instructions.subrange(0, k)));
                &&& operand_in(b2.instructions[k]->Binary_left, kn)
                &&& operand_in(b2.instructions[k]->Binary_right, kn)
            } by {
                assert(b2.instructions[k] == f(b.instructions[k]));
                assert(b.instructions[k] is Binary);
                let kn = known.union(computed(b.instructions.subrange(0, k)));
                assert(operand_in(rewrite_operand_spec(b.instructions[k]->Binary_left, values), kn));
                assert(operand_in(rewrite_operand_spec(b.instructions[k]->Binary_right, values), kn));
            }
        }
        assert forall|known: Set<ValueId>| #[trigger] terminator_reads(b.terminator, known) implies terminator_reads(
            b2.terminator,
            known,
        ) by {
            match b.terminator {
                Some(Terminator::Return(v)) => {
                    assert(operand_in(rewrite_operand_spec(v, values), known));
                },
                Some(Terminator::Branch { condition, .. }) => {
                    assert(operand_in(rewrite_operand_spec(condition, values), known));
                },
                _ => {},
            }
        }
        assert forall|y: BlockId| #[trigger] terminator_targets(b2.terminator).contains(y) implies terminator_targets(
            b.terminator,
        ).contains(y) by {
            if let Some(Terminator::Branch { then_block, else_block, .. }) = b.terminator {
                let ts = terminator_targets(b2.terminator);
                let k = choose|k: int| 0 <= k < ts.len() && ts[k] == y;
                if ts.len() == 1 {
                    if y == then_block {
                        assert(terminator_targets(b.terminator)[0] == y);
                    } else {
                        assert(terminator_targets(b.terminator)[1] == y);
                    }
                } else {
                    assert(k == 0 || k == 1);
                    assert(terminator_targets(b.terminator)[k] == y);
                }
            }
        }
        assert forall|p: int, known: Set<ValueId>| #[trigger] phis_read(b, p, known) implies phis_read(b2, p, known) by {
            assert forall|k: int, j: int|
                0 <= k < b2.instructions.len() && b2.instructions[k] is Phi && 0 <= j
                    < b2.instructions[k]->Phi_incomings.len() && #[trigger] b2.instructions[k]->Phi_incomings[j].0
                    as int == p implies operand_in(b2.instructions[k]->Phi_incomings[j].1, known) by {
                assert(b2.instructions[k] == f(b.instructions[k]));
                let inc = b.instructions[k]->Phi_incomings;
                assert(b2.instructions[k]->Phi_incomings[j] == (inc[j].0, rewrite_operand_spec(inc[j].1, values)));
                assert(b.instructions[k]->Phi_incomings[j].0 as int == p);
            }
        }
        assert forall|p: BlockId| #[trigger] phis_have_input(b, p) implies phis_have_input(b2, p) by {
            assert forall|k: int| 0 <= k < b2.instructions.len() && (#[trigger] b2.instructions[k]) is Phi implies exists|i: int|
                0 <= i < b2.instructions[k]->Phi_incomings.len() && b2.instructions[k]->Phi_incomings[i].0 == p by {
                assert(b2.instructions[k] == f(b.instructions[k]));
                let inc = b.instructions[k]->Phi_incomings;
                let i = choose|i: int| 0 <= i < inc.len() && inc[i].0 == p;
                assert(b2.instructions[k]->Phi_incomings[i].0 == p);
            }
        }
        if phi_free(b) {
            assert forall|k: int| 0 <= k < b2.instructions.len() implies !(#[trigger] b2.instructions[k] is Phi) by {
                assert(b2.instructions[k] == f(b.instructions[k]));
            }
        }
    } else {
        assert forall|k: int| 0 <= k <= b.instructions.len() implies #[trigger] computed(b2.instructions.subrange(0, k))
            == computed(b.instructions.subrange(0, k)) by {}
    }
}

/// Propagation and branch folding keep the reads of a graph available.
pub(crate) proof fn lemma_propagated_reads(g: SpecCfg, avail: spec_fn(BlockId) -> Set<ValueId>)
    requires
        runs_read_available(g, avail),
    ensures
        runs_read_available(propagated_spec(g), avail),
        forall|j: int| 0 <= j < g.blocks.len() ==> #[trigger] propagated_spec(g).blocks[j].id == g.blocks[j].id,
        propagated_spec(g).blocks.len() == g.blocks.len(),
        propagated_spec(g).entry == g.entry,
{
    let (values, executable) = analysis_spec(g);
    let g2 = propagated_spec(g);
    assert forall|j: int| 0 <= j < g.blocks.len() implies #[trigger] g2.blocks[j] == fold_block_spec(
        rewrite_block_spec(g.blocks[j], values, executable),
        values,
        executable,
    ) by {}
    assert forall|j: int| 0 <= j < g.blocks.len() implies #[trigger] g2.blocks[j].id == g.blocks[j].id by {
        lemma_propagated_block(g.blocks[j], values, executable);
    }
    assert forall|y: BlockId| #[trigger] find_block(g2.blocks, y) == find_block(g.blocks, y) by {
        crate::cfg_opt_laws::lemma_find_block_same_ids(g2.blocks, g.blocks, y, 0);
    }
    assert forall|j: int| 0 <= j < g2.blocks.len() implies #[trigger] known_in(g2, avail, j) == known_in(g, avail, j) by {
        lemma_propagated_block(g.blocks[j], values, executable);
    }
    assert forall|j: int| 0 <= j < g2.blocks.len() implies #[trigger] block_ok_in(g2, avail, j) by {
        lemma_propagated_block(g.blocks[j], values, executable);
        assert(block_ok_in(g, avail, j));
        assert(binaries_read(g.blocks[j], avail(g.blocks[j].id)));
        assert(terminator_reads(g.blocks[j].terminator, known_in(g, avail, j)));
    }
    assert forall|j: int, y: BlockId| 0 <= j < g2.blocks.len() implies #[trigger] edge_ok_in(g2, avail, j, y) by {
        lemma_propagated_block(g.blocks[j], values, executable);
        if terminator_targets(g2.blocks[j].terminator).contains(y) {
            assert(terminator_targets(g.blocks[j].terminator).contains(y));
            assert(edge_ok_in(g, avail, j, y));
            let t = find_block(g.blocks, y)->Some_0;
            lemma_find_block_from(g.blocks, y, 0);
            lemma_propagated_block(g.blocks[t], values, executable);
            assert(phis_read(g.blocks[t], g.blocks[j].id as int, known_in(g, avail, j)));
            assert(phis_have_input(g.blocks[t], g.blocks[j].id));
        }
    }
    let e = find_block(g.blocks, g.entry)->Some_0;
    lemma_find_block_from(g.blocks, g.entry, 0);
    lemma_propagated_block(g.blocks[e], values, executable);
}

proof fn lemma_find_increasing(blocks: Seq<SpecBlock>, k: int)
    requires
        ids_increasing(blocks),
        0 <= k < blocks.len(),
    ensures
        find_block(blocks, blocks[k].id) == Some(k),
{
    lemma_find_block_from(blocks, blocks[k].id, 0);
    if let Some(i) = find_block(blocks, blocks[k].id) {
        if i < k {
            assert(blocks[i].id < blocks[k].id);
        }
    }
}

proof fn lemma_keep_increasing(blocks: Seq<SpecBlock>, keep: Set<BlockId>)
    requires
        ids_increasing(blocks),
    ensures
        ids_increasing(keep_blocks(blocks, keep)),
    decreases blocks.len(),
{
    if blocks.len() > 0 {
        let init = blocks.drop_last();
        assert(ids_increasing(init)) by {
            assert forall|i: int, j: int| 0 <= i < j < init.len() implies #[trigger] init[i].id < #[trigger] init[j].id by {
                assert(init[i] == blocks[i] && init[j] == blocks[j]);
            }
        }
        lemma_keep_increasing(init, keep);
        let rest = keep_blocks(init, keep);
        let kept = keep_blocks(blocks, keep);
        if keep.contains(blocks.last().id) {
            assert(kept == rest.push(blocks.last()));
            assert forall|i: int, j: int| 0 <= i < j < kept.len() implies #[trigger] kept[i].id < #[trigger] kept[j].id by {
                assert(kept[i] == rest[i]);
                if j < rest.len() {
                    assert(kept[j] == rest[j]);
                } else {
                    assert(rest.contains(rest[i]));
                    crate::cfg_opt_laws::lemma_keep_sub(init, keep, rest[i]);
                    let q = choose|q: int| 0 <= q < init.len() && init[q] == rest[i];
                    assert(blocks[q] == init[q]);
                    assert(blocks[q].id < blocks[blocks.len() - 1].id);
                }
            }
        }
    }
}

/// Whether a block is the block of `g` its id names, and control can reach it.
pub open spec fn kept_origin(g: SpecCfg, b: SpecBlock) -> bool {
    exists|k: int|
        0 <= k < g.blocks.len() && #[trigger] g.blocks[k] == b && find_block(g.blocks, b.id) == Some(k)
            && reachable_set(g).contains(b.id)
}

/// Pruning keeps the reads of a graph with increasing ids available.
pub(crate) proof fn lemma_prune_reads(g: SpecCfg, avail: spec_fn(BlockId) -> Set<ValueId>)
    requires
        runs_read_available(g, avail),
        ids_increasing(g.blocks),
    ensures
        runs_read_available(prune_spec(g), avail),
        ids_increasing(prune_spec(g).blocks),
{
    let g3 = prune_spec(g);
    let reach = reachable_set(g);
    lemma_keep_increasing(g.blocks, reach);
    assert forall|j: int| 0 <= j < g3.blocks.len() implies #[trigger] kept_origin(g, g3.blocks[j]) by {
        assert(g3.blocks.contains(g3.blocks[j]));
        crate::cfg_opt_laws::lemma_keep_sub(g.blocks, reach, g3.blocks[j]);
        let k = choose|k: int| 0 <= k < g.blocks.len() && g.blocks[k] == g3.blocks[j];
        lemma_find_increasing(g.blocks, k);
        crate::build_laws::lemma_keep_in(g.blocks, reach, j);
    }
    assert forall|j: int| 0 <= j < g3.blocks.len() implies #[trigger] block_ok_in(g3, avail, j) by {
        assert(kept_origin(g, g3.blocks[j]));
        let k = choose|k: int|
            0 <= k < g.blocks.len() && #[trigger] g.blocks[k] == g3.blocks[j] && find_block(g.blocks, g3.blocks[j].id)
                == Some(k) && reach.contains(g3.blocks[j].id);
        assert(block_ok_in(g, avail, k));
        assert(known_in(g3, avail, j) == known_in(g, avail, k));
    }
    assert forall|j: int, y: BlockId| 0 <= j < g3.blocks.len() implies #[trigger] edge_ok_in(g3, avail, j, y) by {
        assert(kept_origin(g, g3.blocks[j]));
        let k = choose|k: int|
            0 <= k < g.blocks.len() && #[trigger] g.blocks[k] == g3.blocks[j] && find_block(g.blocks, g3.blocks[j].id)
                == Some(k) && reach.contains(g3.blocks[j].id);
        assert(known_in(g3, avail, j) == known_in(g, avail, k));
        if terminator_targets(g3.blocks[j].terminator).contains(y) {
            assert(edge_ok_in(g, avail, k, y));
            let t = find_block(g.blocks, y)->Some_0;
            let x = g3.blocks[j].id;
            assert(successors_spec(g, x) == terminator_targets(g.blocks[k].terminator));
            lemma_reachable_step(g, x, y);
            lemma_find_kept(g.blocks, reach, y, t);
        }
    }
    crate::cfg::lemma_entry_reachable(g);
    let e = find_block(g.blocks, g.entry)->Some_0;
    lemma_find_kept(g.blocks, reach, g.entry, e);
}

proof fn lemma_live_incomings(incomings: Seq<(BlockId, Operand)>, n: int, predecessors: Seq<BlockId>)
    requires
        0 <= n <= incomings.len(),
    ensures
        forall|k: int|
            0 <= k < live_incomings(incomings, n, predecessors).len() ==> exists|i: int|
                0 <= i < n && #[trigger] live_incomings(incomings, n, predecessors)[k] == incomings[i],
        forall|i: int|
            0 <= i < n && predecessors.contains(#[trigger] incomings[i].0) ==> exists|k: int|
                0 <= k < live_incomings(incomings, n, predecessors).len() && live_incomings(
                    incomings,
                    n,
                    predecessors,
                )[k] == incomings[i],
    decreases n,
{
    if n > 0 {
        lemma_live_incomings(incomings, n - 1, predecessors);
        let before = live_incomings(incomings, n - 1, predecessors);
        let live = live_incomings(incomings, n, predecessors);
        assert forall|k: int| 0 <= k < live.len() implies exists|i: int| 0 <= i < n && #[trigger] live[k] == incomings[i] by {
            if k < before.len() {
                assert(live[k] == before[k]);
                let i = choose|i: int| 0 <= i < n - 1 && #[trigger] before[k] == incomings[i];
                assert(live[k] == incomings[i]);
            } else {
                assert(live[k] == incomings[n - 1]);
            }
        }
        assert forall|i: int| 0 <= i < n && predecessors.contains(#[trigger] incomings[i].0) implies exists|k: int|
            0 <= k < live.len() && live[k] == incomings[i] by {
            if i < n - 1 {
                let k = choose|k: int| 0 <= k < before.len() && before[k] == incomings[i];
                assert(live[k] == before[k]);
            } else {
                assert(live[live.len() - 1] == incomings[i]);
            }
        }
    }
}

/// Dropping the phi edges from blocks that are not predecessors keeps what a block computes and
/// reads, and keeps the phis' edges from predecessors.
proof fn lemma_simplified_block(b: SpecBlock, predecessors: Seq<BlockId>)
    ensures
        ({
            let f = |i: SpecInstruction| simplify_instruction_spec(i, predecessors);
            let b4 = SpecBlock { id: b.id, instructions: b.instructions.map_values(f), terminator: b.terminator };
            &&& computed(b4.instructions) == computed(b.instructions)
            &&& forall|known: Set<ValueId>| #[trigger] binaries_read(b, known) ==> binaries_read(b4, known)
            &&& forall|p: int, known: Set<ValueId>| #[trigger] phis_read(b, p, known) ==> phis_read(b4, p, known)
            &&& forall|p: BlockId| #[trigger] phis_have_input(b, p) && predecessors.contains(p) ==> phis_have_input(b4, p)
            &&& phi_free(b) ==> phi_free(b4)
        }),
{
    let f = |i: SpecInstruction| simplify_instruction_spec(i, predecessors);
    let b4 = SpecBlock { id: b.id, instructions: b.instructions.map_values(f), terminator: b.terminator };
    assert forall|i: SpecInstruction| #[trigger] computed_by(f(i)) == computed_by(i) by {}
    lemma_computed_map(b.instructions, f);
    assert forall|known: Set<ValueId>| #[trigger] binaries_read(b, known) implies binaries_read(b4, known) by {
        assert forall|k: int| 0 <= k < b4.instructions.len() && (#[trigger] b4.instructions[k]) is Binary implies {
            let kn = known.union(computed(b4.instructions.subrange(0, k)));
            &&& operand_in(b4.instructions[k]->Binary_left, kn)
            &&& operand_in(b4.instructions[k]->Binary_right, kn)
        } by {
            assert(b4.instructions[k] == f(b.instructions[k]));
            assert(b.instructions[k] is Binary);
        }
    }
    assert forall|p: int, known: Set<ValueId>| #[trigger] phis_read(b, p, known) implies phis_read(b4, p, known) by {
        assert forall|k: int, j: int|
            0 <= k < b4.instructions.len() && b4.instructions[k] is Phi && 0 <= j
                < b4.instructions[k]->Phi_incomings.len() && #[trigger] b4.instructions[k]->Phi_incomings[j].0 as int
                == p implies operand_in(b4.instructions[k]->Phi_incomings[j].1, known) by {
            assert(b4.instructions[k] == f(b.instructions[k]));
            let inc = b.instructions[k]->Phi_incomings;
            lemma_live_incomings(inc, inc.len() as int, predecessors);
            let live = live_incomings(inc, inc.len() as int, predecessors);
            assert(b4.instructions[k]->Phi_incomings == live);
            let i = choose|i: int| 0 <= i < inc.len() && #[trigger] live[j] == inc[i];
            assert(b.instructions[k]->Phi_incomings[i] == inc[i]);
        }
    }
    assert forall|p: BlockId| #[trigger] phis_have_input(b, p) && predecessors.contains(p) implies phis_have_input(b4, p) by {
        assert forall|k: int| 0 <= k < b4.instructions.len() && (#[trigger] b4.instructions[k]) is Phi implies exists|i: int|
            0 <= i < b4.instructions[k]->Phi_incomings.len() && b4.instructions[k]->Phi_incomings[i].0 == p by {
            assert(b4.instructions[k] == f(b.instructions[k]));
            let inc = b.instructions[k]->Phi_incomings;
            lemma_live_incomings(inc, inc.len() as int, predecessors);
            let live = live_incomings(inc, inc.len() as int, predecessors);
            let i = choose|i: int| 0 <= i < inc.len() && inc[i].0 == p;
            assert(predecessors.contains(inc[i].0));
            let k2 = choose|k2: int| 0 <= k2 < live.len() && live[k2] == inc[i];
            assert(b4.instructions[k]->Phi_incomings[k2].0 == p);
        }
    }
    if phi_free(b) {
        assert forall|k: int| 0 <= k < b4.instructions.len() implies !(#[trigger] b4.instructions[k] is Phi) by {
            assert(b4.instructions[k] == f(b.instructions[k]));
        }
    }
}

/// Phi simplification keeps the reads of a graph with increasing ids available.
pub(crate) proof fn lemma_simplify_reads(g: SpecCfg, avail: spec_fn(BlockId) -> Set<ValueId>)
    requires
        runs_read_available(g, avail),
        ids_increasing(g.blocks),
    ensures
        runs_read_available(simplify_spec(g), avail),
{
    let g4 = simplify_spec(g);
    assert forall|j: int| 0 <= j < g.blocks.len() implies #[trigger] g4.blocks[j] == simplify_block_spec(g, g.blocks[j]) by {}
    assert forall|y: BlockId| #[trigger] find_block(g4.blocks, y) == find_block(g.blocks, y) by {
        crate::cfg_opt_laws::lemma_find_block_same_ids(g4.blocks, g.blocks, y, 0);
    }
    assert forall|j: int| 0 <= j < g4.blocks.len() implies #[trigger] known_in(g4, avail, j) == known_in(g, avail, j) by {
        lemma_simplified_block(g.blocks[j], predecessors_spec(g, g.blocks[j].id));
    }
    assert forall|j: int| 0 <= j < g4.blocks.len() implies #[trigger] block_ok_in(g4, avail, j) by {
        lemma_simplified_block(g.blocks[j], predecessors_spec(g, g.blocks[j].id));
        assert(block_ok_in(g, avail, j));
        assert(binaries_read(g.blocks[j], avail(g.blocks[j].id)));
    }
    assert forall|j: int, y: BlockId| 0 <= j < g4.blocks.len() implies #[trigger] edge_ok_in(g4, avail, j, y) by {
        if terminator_targets(g4.blocks[j].terminator).contains(y) {
            assert(edge_ok_in(g, avail, j, y));
            let t = find_block(g.blocks, y)->Some_0;
            lemma_find_block_from(g.blocks, y, 0);
            let x = g.blocks[j].id;
            lemma_find_increasing(g.blocks, j);
            assert(successors_spec(g, x).contains(y));
            crate::cfg::lemma_predecessors_from(g, y, 0, x);
            assert(predecessors_spec(g, y).contains(x));
            lemma_simplified_block(g.blocks[t], predecessors_spec(g, g.blocks[t].id));
            assert(phis_read(g.blocks[t], x as int, known_in(g, avail, j)));
            assert(phis_have_input(g.blocks[t], x));
        }
    }
    let e = find_block(g.blocks, g.entry)->Some_0;
    lemma_find_block_from(g.blocks, g.entry, 0);
    lemma_simplified_block(g.blocks[e], predecessors_spec(g, g.blocks[e].id));
}

proof fn lemma_filter_origin<A>(s: Seq<A>, pred: spec_fn(A) -> bool, k: int)
    requires
        0 <= k < s.filter(pred).len(),
    ensures
        exists|i: int| 0 <= i < s.len() && #[trigger] s[i] == s.filter(pred)[k],
    decreases s.len(),
{
    reveal(Seq::filter);
    let init = s.drop_last();
    let f0 = init.filter(pred);
    if pred(s.last()) && k == f0.len() {
        assert(s.filter(pred)[k] == s.last());
        assert(s[s.len() - 1] == s.last());
    } else {
        assert(s.filter(pred)[k] == f0[k]);
        lemma_filter_origin(init, pred, k);
        let i = choose|i: int| 0 <= i < init.len() && #[trigger] init[i] == f0[k];
        assert(s[i] == init[i]);
    }
}

proof fn lemma_incoming_use_in(incomings: Seq<(BlockId, Operand)>, n: int, i: int)
    requires
        0 <= i < n <= incomings.len(),
    ensures
        operand_uses(incomings[i].1).subset_of(incoming_uses(incomings, n)),
    decreases n,
{
    if i < n - 1 {
        lemma_incoming_use_in(incomings, n - 1, i);
    }
}

/// An operand read by a value of `used` is known among the used values.
proof fn lemma_operand_used(o: Operand, known: Set<ValueId>, used: Set<ValueId>)
    requires
        operand_in(o, known),
        operand_uses(o).subset_of(used),
    ensures
        operand_in(o, known.intersect(used)),
{
    if let Operand::Value(v) = o {
        assert(operand_uses(o).contains(v));
    }
}

/// Keeping the instructions whose value is used: what they read and use stays known among the
/// used values.
proof fn lemma_filter_reads(s: Seq<SpecInstruction>, avail: Set<ValueId>, used: Set<ValueId>)
    requires
        binaries_read(SpecBlock { id: 0, instructions: s, terminator: None }, avail),
        instructions_uses(s.filter(keeps(used)), s.filter(keeps(used)).len() as int).subset_of(used),
    ensures
        binaries_read(
            SpecBlock { id: 0, instructions: s.filter(keeps(used)), terminator: None },
            avail.intersect(used),
        ),
        computed(s).intersect(used).subset_of(computed(s.filter(keeps(used)))),
        computed(s.filter(keeps(used))).subset_of(computed(s)),
    decreases s.len(),
{
    reveal(Seq::filter);
    let f = s.filter(keeps(used));
    if s.len() == 0 {
        assert(f =~= Seq::<SpecInstruction>::empty());
    } else {
        let init = s.drop_last();
        let x = s.last();
        let b = SpecBlock { id: 0, instructions: s, terminator: None };
        let bi = SpecBlock { id: 0, instructions: init, terminator: None };
        assert(binaries_read(bi, avail)) by {
            assert forall|k: int| 0 <= k < init.len() && (#[trigger] bi.instructions[k]) is Binary implies {
                let kn = avail.union(computed(bi.instructions.subrange(0, k)));
                &&& operand_in(bi.instructions[k]->Binary_left, kn)
                &&& operand_in(bi.instructions[k]->Binary_right, kn)
            } by {
                assert(b.instructions[k] == init[k]);
                assert(s.subrange(0, k) =~= init.subrange(0, k));
            }
        }
        let f0 = init.filter(keeps(used));
        assert(s =~= init.push(x));
        if keeps(used)(x) {
            assert(f == f0.push(x));
            crate::cfg_opt_laws::lemma_instructions_uses_prefix(f, f0, f0.len() as int);
            crate::cfg_opt_laws::lemma_instruction_uses_in(f, f.len() as int, f0.len() as int);
            assert(instructions_uses(f, f.len() as int) == instructions_uses(f, f0.len() as int).union(
                instruction_uses(f[f0.len() as int]),
            ));
        } else {
            assert(f == f0);
        }
        lemma_filter_reads(init, avail, used);
        lemma_computed_push(init, x);
        assert(x == s[init.len() as int]);
        if keeps(used)(x) {
            assert(f == f0.push(x));
            lemma_computed_push(f0, x);
            let bf = SpecBlock { id: 0, instructions: f, terminator: None };
            let bf0 = SpecBlock { id: 0, instructions: f0, terminator: None };
            let a2 = avail.intersect(used);
            assert forall|k: int| 0 <= k < f.len() && (#[trigger] bf.instructions[k]) is Binary implies {
                let kn = a2.union(computed(bf.instructions.subrange(0, k)));
                &&& operand_in(bf.instructions[k]->Binary_left, kn)
                &&& operand_in(bf.instructions[k]->Binary_right, kn)
            } by {
                if k < f0.len() {
                    assert(bf.instructions[k] == bf0.instructions[k]);
                } else {
                    assert(bf.instructions[k] == x);
                    assert(f.subrange(0, k) == f0.subrange(0, k));
                    assert(f0.subrange(0, k) =~= f0);
                    assert(b.instructions[init.len() as int] == x);
                    assert(s.subrange(0, init.len() as int) =~= init);
                    let kn = avail.union(computed(init));
                    assert(instruction_uses(x).subset_of(used));
                    let left = x->Binary_left;
                    let right = x->Binary_right;
                    assert(operand_in(left, kn) && operand_in(right, kn));
                    lemma_operand_used(left, kn, used);
                    lemma_operand_used(right, kn, used);
                    assert(kn.intersect(used).subset_of(a2.union(computed(f0))));
                }
            }
        } else {
            assert(f == f0);
            assert(computed_by(x).intersect(used) =~= Set::<ValueId>::empty());
        }
    }
}

/// Dead-code elimination keeps the reads of a graph available, among the values the result
/// still reads.
pub(crate) proof fn lemma_dce_reads(g: SpecCfg, avail: spec_fn(BlockId) -> Set<ValueId>)
    requires
        runs_read_available(g, avail),
    ensures
        runs_read_available(
            dce_spec(g).0,
            |x: BlockId| avail(x).intersect(used_values(dce_spec(g).0)),
        ),
{
    let h = dce_spec(g).0;
    let used = used_values(h);
    let a2 = |x: BlockId| avail(x).intersect(used);
    crate::cfg_opt_laws::lemma_dce_result(g);
    assert forall|j: int| 0 <= j < g.blocks.len() implies #[trigger] h.blocks[j] == (SpecBlock {
        id: g.blocks[j].id,
        instructions: g.blocks[j].instructions.filter(keeps(used)),
        terminator: g.blocks[j].terminator,
    }) by {}
    assert forall|y: BlockId| #[trigger] find_block(h.blocks, y) == find_block(g.blocks, y) by {
        crate::cfg_opt_laws::lemma_find_block_same_ids(h.blocks, g.blocks, y, 0);
    }
    // What each block of the result reads is used, and what it knows covers the used values
    // the input block knew.
    assert forall|j: int| 0 <= j < h.blocks.len() implies #[trigger] binaries_read(h.blocks[j], a2(h.blocks[j].id))
        && known_in(g, avail, j).intersect(used).subset_of(known_in(h, a2, j)) by {
        let s = g.blocks[j].instructions;
        let f = h.blocks[j].instructions;
        crate::cfg_opt_laws::lemma_block_uses_in(h.blocks, h.blocks.len() as int, j);
        assert(block_ok_in(g, avail, j));
        assert(binaries_read(SpecBlock { id: 0, instructions: s, terminator: None }, avail(g.blocks[j].id))) by {
            assert(binaries_read(g.blocks[j], avail(g.blocks[j].id)));
        }
        lemma_filter_reads(s, avail(g.blocks[j].id), used);
        assert(binaries_read(SpecBlock { id: 0, instructions: f, terminator: None }, a2(h.blocks[j].id)));
    }
    assert forall|j: int| 0 <= j < h.blocks.len() implies #[trigger] block_ok_in(h, a2, j) by {
        assert(binaries_read(h.blocks[j], a2(h.blocks[j].id)));
        assert(block_ok_in(g, avail, j));
        crate::cfg_opt_laws::lemma_block_uses_in(h.blocks, h.blocks.len() as int, j);
        let known = known_in(g, avail, j);
        match h.blocks[j].terminator {
            Some(Terminator::Return(v)) => {
                lemma_operand_used(v, known, used);
            },
            Some(Terminator::Branch { condition, .. }) => {
                lemma_operand_used(condition, known, used);
            },
            _ => {},
        }
    }
    assert forall|j: int, y: BlockId| 0 <= j < h.blocks.len() implies #[trigger] edge_ok_in(h, a2, j, y) by {
        if terminator_targets(h.blocks[j].terminator).contains(y) {
            assert(edge_ok_in(g, avail, j, y));
            let t = find_block(g.blocks, y)->Some_0;
            lemma_find_block_from(g.blocks, y, 0);
            let x = g.blocks[j].id;
            let known = known_in(g, avail, j);
            assert(binaries_read(h.blocks[j], a2(h.blocks[j].id)));
            assert(known.intersect(used).subset_of(known_in(h, a2, j)));
            let ht = h.blocks[t];
            let gt = g.blocks[t];
            crate::cfg_opt_laws::lemma_block_uses_in(h.blocks, h.blocks.len() as int, t);
            assert forall|k: int, i: int|
                0 <= k < ht.instructions.len() && ht.instructions[k] is Phi && 0 <= i
                    < ht.instructions[k]->Phi_incomings.len() && #[trigger] ht.instructions[k]->Phi_incomings[i].0
                    as int == x as int implies operand_in(ht.instructions[k]->Phi_incomings[i].1, known_in(h, a2, j)) by {
                lemma_filter_origin(gt.instructions, keeps(used), k);
                let q = choose|q: int| 0 <= q < gt.instructions.len() && #[trigger] gt.instructions[q] == ht.instructions[k];
                let inc = ht.instructions[k]->Phi_incomings;
                assert(gt.instructions[q]->Phi_incomings[i] == inc[i]);
                assert(operand_in(inc[i].1, known));
                crate::cfg_opt_laws::lemma_instruction_uses_in(ht.instructions, ht.instructions.len() as int, k);
                lemma_incoming_use_in(inc, inc.len() as int, i);
                lemma_operand_used(inc[i].1, known, used);
            }
            assert forall|k: int| 0 <= k < ht.instructions.len() && (#[trigger] ht.instructions[k]) is Phi implies exists|i: int|
                0 <= i < ht.instructions[k]->Phi_incomings.len() && ht.instructions[k]->Phi_incomings[i].0 == x by {
                lemma_filter_origin(gt.instructions, keeps(used), k);
                let q = choose|q: int| 0 <= q < gt.instructions.len() && #[trigger] gt.instructions[q] == ht.instructions[k];
                assert(phis_have_input(gt, x));
                assert(gt.instructions[q] is Phi);
            }
        }
    }
    let e = find_block(g.blocks, g.entry)->Some_0;
    lemma_find_block_from(g.blocks, g.entry, 0);
    assert forall|k: int| 0 <= k < h.blocks[e].instructions.len() implies !(#[trigger] h.blocks[e].instructions[k] is Phi) by {
        lemma_filter_origin(g.blocks[e].instructions, keeps(used), k);
        let q = choose|q: int| 0 <= q < g.blocks[e].instructions.len() && #[trigger] g.blocks[e].instructions[q]
            == h.blocks[e].instructions[k];
    }
    assert(a2(h.entry) =~= Set::<ValueId>::empty());
}

/// The reads of the graph a fresh builder makes of a block are available, by block id.
pub(crate) proof fn lemma_built_reads(statements: Seq<SpecTypedStatement>) -> (avail: spec_fn(BlockId) -> Set<ValueId>)
    requires
        fits(build_statements_spec(initial_build_state(), statements)),
    ensures
        runs_read_available(built_graph(statements), avail),
        ids_increasing(built_graph(statements).blocks),
{
    let blocks = build_statements_spec(initial_build_state(), statements).blocks;
    let raw = SpecCfg { entry: 0, blocks };
    let annotation = lemma_built_annotation(statements);
    lemma_pruned_reads(raw, annotation);
    let a = by_id(annotation);
    let p = prune_spec(raw);
    lemma_simplify_reads(p, a);
    let g = built_graph(statements);
    assert(ids_increasing(g.blocks)) by {
        assert forall|i: int, j: int| 0 <= i < j < g.blocks.len() implies #[trigger] g.blocks[i].id
            < #[trigger] g.blocks[j].id by {
            assert(g.blocks[i] == simplify_block_spec(p, p.blocks[i]));
            assert(g.blocks[j] == simplify_block_spec(p, p.blocks[j]));
        }
    }
    a
}

/// Running the graph a fresh builder makes of a block never refers to a block, a value or a phi
/// input that is not there: every block a run reaches exists, every value it reads has been
/// computed on the way there, and every phi has an input for the edge taken.
pub proof fn lemma_built_graph_reads_computed_values(statements: Seq<SpecTypedStatement>)
    requires
        fits(build_statements_spec(initial_build_state(), statements)),
    ensures
        !refers_to_missing(execute_spec(built_graph(statements))),
{
    let a = lemma_built_reads(statements);
    let g = built_graph(statements);
    assert(all_computed(a(g.entry), Map::<ValueId, i64>::empty()));
    lemma_run_in(g, a, step_limit(), g.entry, None, Map::empty(), Set::empty());
}

/// Running the optimized form of the graph a fresh builder makes of a block never refers to a
/// block, a value or a phi input that is not there: optimizing keeps every value a run reads
/// computed before it is read.
pub proof fn lemma_optimized_graph_reads_computed_values(statements: Seq<SpecTypedStatement>)
    requires
        fits(build_statements_spec(initial_build_state(), statements)),
    ensures
        !refers_to_missing(execute_spec(optimize_spec(built_graph(statements)).0)),
{
    let a = lemma_built_reads(statements);
    let g = built_graph(statements);
    lemma_propagated_reads(g, a);
    let g2 = propagated_spec(g);
    assert(ids_increasing(g2.blocks)) by {
        assert forall|i: int, j: int| 0 <= i < j < g2.blocks.len() implies #[trigger] g2.blocks[i].id
            < #[trigger] g2.blocks[j].id by {
            assert(g2.blocks[i].id == g.blocks[i].id);
            assert(g2.blocks[j].id == g.blocks[j].id);
        }
    }
    lemma_prune_reads(g2, a);
    let g3 = prune_spec(g2);
    lemma_simplify_reads(g3, a);
    let g4 = simplify_spec(g3);
    lemma_dce_reads(g4, a);
    let h = optimize_spec(g).0;
    assert(h == dce_spec(g4).0);
    let a2 = |x: BlockId| a(x).intersect(used_values(h));
    assert(all_computed(a2(h.entry), Map::<ValueId, i64>::empty()));
    lemma_run_in(h, a2, step_limit(), h.entry, None, Map::empty(), Set::empty());
}

/// Running the graph a fresh builder makes of a block that returns on every path (the type
/// checker accepts only such blocks), optimized or not, ends in a returned value, a division by
/// zero or an arithmetic overflow, and in nothing else.
pub proof fn lemma_returning_graph_outcome(statements: Seq<SpecTypedStatement>)
    requires
        fits(build_statements_spec(initial_build_state(), statements)),
        typed_block_returns(statements),
    ensures
        ({
            let result = execute_spec(built_graph(statements));
            ||| result is Ok
            ||| result == Err::<i64, CfgRuntimeError>(CfgRuntimeError::DivisionByZero)
            ||| result == Err::<i64, CfgRuntimeError>(CfgRuntimeError::IntegerOverflow)
        }),
        ({
            let result = execute_spec(optimize_spec(built_graph(statements)).0);
            ||| result is Ok
            ||| result == Err::<i64, CfgRuntimeError>(CfgRuntimeError::DivisionByZero)
            ||| result == Err::<i64, CfgRuntimeError>(CfgRuntimeError::IntegerOverflow)
        }),
{
    lemma_built_graph_reads_computed_values(statements);
    lemma_optimized_graph_reads_computed_values(statements);
    lemma_returning_graph_runs_to_return(statements);
    lemma_built_graph_within_step_limit(statements);
}

/// Graphs with the same entry and the same ids and terminators, in the same order, reach the
/// same blocks.
proof fn lemma_same_shape_reachable(a: SpecCfg, b: SpecCfg)
    requires
        a.entry == b.entry,
        a.blocks.len() == b.blocks.len(),
        forall|j: int| 0 <= j < a.blocks.len() ==> (#[trigger] a.blocks[j]).id == b.blocks[j].id
            && a.blocks[j].terminator == b.blocks[j].terminator,
    ensures
        reachable_set(a) == reachable_set(b),
{
    assert forall|x: BlockId| #[trigger] successors_spec(a, x) == successors_spec(b, x) by {
        crate::cfg_opt_laws::lemma_find_block_same_ids(a.blocks, b.blocks, x, 0);
        lemma_find_block_from(a.blocks, x, 0);
    }
    assert forall|path: Seq<BlockId>| #[trigger] is_entry_path(a, path) == is_entry_path(b, path) by {
        if is_entry_path(a, path) {
            assert forall|k: int| 0 <= k < path.len() - 1 implies #[trigger] successors_spec(b, path[k]).contains(
                path[k + 1],
            ) by {
                assert(successors_spec(a, path[k]).contains(path[k + 1]));
                assert(successors_spec(a, path[k]) == successors_spec(b, path[k]));
            }
        }
        if is_entry_path(b, path) {
            assert forall|k: int| 0 <= k < path.len() - 1 implies #[trigger] successors_spec(a, path[k]).contains(
                path[k + 1],
            ) by {
                assert(successors_spec(b, path[k]).contains(path[k + 1]));
                assert(successors_spec(a, path[k]) == successors_spec(b, path[k]));
            }
        }
    }
    assert forall|id: BlockId| reachable_set(a).contains(id) == reachable_set(b).contains(id) by {
        if reachable_spec(a, id) {
            let path = choose|path: Seq<BlockId>| #[trigger] is_entry_path(a, path) && path.last() == id;
            assert(is_entry_path(b, path));
        }
        if reachable_spec(b, id) {
            let path = choose|path: Seq<BlockId>| #[trigger] is_entry_path(b, path) && path.last() == id;
            assert(is_entry_path(a, path));
        }
    }
    assert(reachable_set(a) =~= reachable_set(b));
}

/// The optimized graph keeps the entry, every one of its blocks is reachable, and every value an
/// instruction of it computes is read by some operand of it.
pub proof fn lemma_optimized_graph_shape(g: SpecCfg)
    ensures
        optimize_spec(g).0.entry == g.entry,
        forall|j: int|
            0 <= j < optimize_spec(g).0.blocks.len() ==> reachable_set(optimize_spec(g).0).contains(
                #[trigger] optimize_spec(g).0.blocks[j].id,
            ),
        forall|j: int, k: int|
            0 <= j < optimize_spec(g).0.blocks.len() && 0 <= k < optimize_spec(g).0.blocks[j].instructions.len()
                && !(#[trigger] optimize_spec(g).0.blocks[j].instructions[k] is Bind) ==> used_values(
                optimize_spec(g).0,
            ).contains(result_key(optimize_spec(g).0.blocks[j].instructions[k])),
{
    let g2 = propagated_spec(g);
    let g3 = prune_spec(g2);
    let g4 = simplify_spec(g3);
    let h = optimize_spec(g).0;
    let used = used_values(h);
    crate::cfg_opt_laws::lemma_dce_result(g4);
    assert(h == dce_spec(g4).0);
    assert forall|j: int| 0 <= j < g4.blocks.len() implies #[trigger] h.blocks[j] == (SpecBlock {
        id: g4.blocks[j].id,
        instructions: g4.blocks[j].instructions.filter(keeps(used)),
        terminator: g4.blocks[j].terminator,
    }) by {}
    assert forall|j: int| 0 <= j < g3.blocks.len() implies (#[trigger] g3.blocks[j]).id == g4.blocks[j].id
        && g3.blocks[j].terminator == g4.blocks[j].terminator by {
        assert(g4.blocks[j] == simplify_block_spec(g3, g3.blocks[j]));
    }
    lemma_same_shape_reachable(g3, g4);
    assert forall|j: int| 0 <= j < g4.blocks.len() implies (#[trigger] g4.blocks[j]).id == h.blocks[j].id
        && g4.blocks[j].terminator == h.blocks[j].terminator by {}
    lemma_same_shape_reachable(g4, h);
    crate::build_laws::lemma_prune_keeps_reachability(g2);
    assert forall|j: int| 0 <= j < h.blocks.len() implies reachable_set(h).contains(#[trigger] h.blocks[j].id) by {
        crate::build_laws::lemma_keep_in(g2.blocks, reachable_set(g2), j);
        assert(g4.blocks[j].id == g3.blocks[j].id);
    }
    assert forall|j: int, k: int|
        0 <= j < h.blocks.len() && 0 <= k < h.blocks[j].instructions.len() && !(
        #[trigger] h.blocks[j].instructions[k] is Bind) implies used.contains(result_key(h.blocks[j].instructions[k])) by {
        g4.blocks[j].instructions.lemma_filter_pred(keeps(used), k);
    }
}

/// An id control can reach in blocks whose terminators name only blocks that exist, from entry
/// block 0, is the position of a block.
proof fn lemma_reachable_in_range(raw: SpecCfg, x: BlockId)
    requires
        raw.entry == 0,
        raw.blocks.len() > 0,
        targets_in_range(raw.blocks),
        reachable_spec(raw, x),
    ensures
        (x as int) < raw.blocks.len(),
{
    let path = choose|path: Seq<BlockId>| #[trigger] is_entry_path(raw, path) && path.last() == x;
    if path.len() > 1 {
        let k = path.len() - 2;
        assert(successors_spec(raw, path[k]).contains(path[k + 1]));
        lemma_find_block_from(raw.blocks, path[k], 0);
        if let Some(i) = find_block(raw.blocks, path[k]) {
            assert(terminator_targets(raw.blocks[i].terminator).contains(x));
        }
    }
}

/// Pruning keeps every block whose id it keeps.
proof fn lemma_keep_contains(blocks: Seq<SpecBlock>, keep: Set<BlockId>, q: int)
    requires
        0 <= q < blocks.len(),
        keep.contains(blocks[q].id),
    ensures
        exists|j: int| 0 <= j < keep_blocks(blocks, keep).len() && #[trigger] keep_blocks(blocks, keep)[j] == blocks[q],
    decreases blocks.len(),
{
    let init = blocks.drop_last();
    let rest = keep_blocks(init, keep);
    let kept = keep_blocks(blocks, keep);
    if q == blocks.len() - 1 {
        assert(kept == rest.push(blocks.last()));
        assert(kept[rest.len() as int] == blocks[q]);
    } else {
        lemma_keep_contains(init, keep, q);
        let j = choose|j: int| 0 <= j < rest.len() && #[trigger] rest[j] == init[q];
        assert(init[q] == blocks[q]);
        assert(kept[j] == rest[j]);
    }
}

/// The graph a fresh builder makes of a block: its entry is block 0, which comes first; block ids
/// increase strictly along the blocks; its blocks are exactly those control can reach from the
/// entry; no two of its instructions compute the same value, and every value an instruction or a
/// terminator reads is computed by one of them; and where every path through the block returns
/// (the type checker accepts only such blocks), every block ends in a terminator.
pub proof fn lemma_built_graph_shape(statements: Seq<SpecTypedStatement>)
    requires
        fits(build_statements_spec(initial_build_state(), statements)),
    ensures
        built_graph(statements).entry == 0,
        built_graph(statements).blocks.len() > 0,
        built_graph(statements).blocks[0].id == 0,
        ids_increasing(built_graph(statements).blocks),
        forall|j: int|
            0 <= j < built_graph(statements).blocks.len() ==> reachable_set(built_graph(statements)).contains(
                #[trigger] built_graph(statements).blocks[j].id,
            ),
        forall|x: BlockId|
            #[trigger] reachable_set(built_graph(statements)).contains(x) ==> exists|j: int|
                0 <= j < built_graph(statements).blocks.len() && #[trigger] built_graph(statements).blocks[j].id == x,
        forall|j1: int, k1: int, j2: int, k2: int|
            0 <= j1 < built_graph(statements).blocks.len() && 0 <= k1 < built_graph(statements).blocks[j1].instructions.len()
                && 0 <= j2 < built_graph(statements).blocks.len() && 0 <= k2 < built_graph(
                statements,
            ).blocks[j2].instructions.len() && computes(#[trigger] built_graph(statements).blocks[j1].instructions[k1])
                && computes(#[trigger] built_graph(statements).blocks[j2].instructions[k2]) && (j1 != j2 || k1 != k2)
                ==> result_key(built_graph(statements).blocks[j1].instructions[k1]) != result_key(
                built_graph(statements).blocks[j2].instructions[k2],
            ),
        forall|j: int, k: int|
            0 <= j < built_graph(statements).blocks.len() && 0 <= k < built_graph(statements).blocks[j].instructions.len()
                && (#[trigger] built_graph(statements).blocks[j].instructions[k]) is Binary ==> operand_in(
                built_graph(statements).blocks[j].instructions[k]->Binary_left,
                graph_results(built_graph(statements)),
            ) && operand_in(
                built_graph(statements).blocks[j].instructions[k]->Binary_right,
                graph_results(built_graph(statements)),
            ),
        forall|j: int, k: int, i: int|
            0 <= j < built_graph(statements).blocks.len() && 0 <= k < built_graph(statements).blocks[j].instructions.len()
                && built_graph(statements).blocks[j].instructions[k] is Phi && 0 <= i < built_graph(
                statements,
            ).blocks[j].instructions[k]->Phi_incomings.len() ==> operand_in(
                #[trigger] built_graph(statements).blocks[j].instructions[k]->Phi_incomings[i].1,
                graph_results(built_graph(statements)),
            ),
        forall|j: int|
            0 <= j < built_graph(statements).blocks.len() ==> terminator_reads(
                #[trigger] built_graph(statements).blocks[j].terminator,
                graph_results(built_graph(statements)),
            ),
        typed_block_returns(statements) ==> all_terminated(built_graph(statements).blocks),
{
    crate::result_laws::lemma_built_results_unique(statements);
    crate::build_laws::lemma_built_blocks(statements);
    lemma_built_reads(statements);
    let blocks = build_statements_spec(initial_build_state(), statements).blocks;
    let raw = SpecCfg { entry: 0, blocks };
    let p = prune_spec(raw);
    let g = built_graph(statements);
    crate::build_laws::lemma_prune_keeps_reachability(raw);
    crate::build_laws::lemma_kept_blocks(blocks, reachable_set(raw));
    assert forall|j: int| 0 <= j < p.blocks.len() implies (#[trigger] p.blocks[j]).id == g.blocks[j].id
        && p.blocks[j].terminator == g.blocks[j].terminator by {
        assert(g.blocks[j] == simplify_block_spec(p, p.blocks[j]));
    }
    lemma_same_shape_reachable(p, g);
    assert forall|j: int| 0 <= j < g.blocks.len() implies reachable_set(g).contains(#[trigger] g.blocks[j].id) by {
        assert(reachable_set(raw).contains(p.blocks[j].id));
    }
    assert forall|x: BlockId| #[trigger] reachable_set(g).contains(x) implies exists|j: int|
        0 <= j < g.blocks.len() && #[trigger] g.blocks[j].id == x by {
        assert(reachable_spec(raw, x));
        lemma_reachable_in_range(raw, x);
        assert(blocks[x as int].id == x);
        lemma_keep_contains(blocks, reachable_set(raw), x as int);
        let j = choose|j: int| 0 <= j < p.blocks.len() && #[trigger] p.blocks[j] == blocks[x as int];
        assert(g.blocks[j].id == x);
    }
    crate::cfg::lemma_entry_reachable(g);
    assert(reachable_set(g).contains(0));
    let j0 = choose|j: int| 0 <= j < g.blocks.len() && #[trigger] g.blocks[j].id == 0;
    if j0 > 0 {
        assert(g.blocks[0].id < g.blocks[j0].id);
    }
    lemma_built_graph_reads_results(statements);
}

/// The values the instructions of a graph compute.
pub open spec fn graph_results(g: SpecCfg) -> Set<ValueId> {
    Set::new(
        |v: ValueId|
            exists|j: int, k: int|
                0 <= j < g.blocks.len() && 0 <= k < g.blocks[j].instructions.len() && computes(
                    #[trigger] g.blocks[j].instructions[k],
                ) && result_key(g.blocks[j].instructions[k]) == v,
    )
}

proof fn lemma_computed_results(g: SpecCfg, j: int, n: int)
    requires
        0 <= j < g.blocks.len(),
        0 <= n <= g.blocks[j].instructions.len(),
    ensures
        computed(g.blocks[j].instructions.subrange(0, n)).subset_of(graph_results(g)),
    decreases n,
{
    let s = g.blocks[j].instructions.subrange(0, n);
    if n > 0 {
        lemma_computed_results(g, j, n - 1);
        assert(s.drop_last() =~= g.blocks[j].instructions.subrange(0, n - 1));
        let x = s.last();
        assert(g.blocks[j].instructions[n - 1] == x);
        assert forall|v: ValueId| computed_by(x).contains(v) implies graph_results(g).contains(v) by {
            assert(computes(g.blocks[j].instructions[n - 1]));
            assert(result_key(g.blocks[j].instructions[n - 1]) == v);
        }
    } else {
        assert(computed(s) =~= Set::<ValueId>::empty());
    }
}

/// What a block leaves known consists of computed values where what is available on entry to it
/// does.
proof fn lemma_known_results(g: SpecCfg, avail: spec_fn(BlockId) -> Set<ValueId>, j: int)
    requires
        0 <= j < g.blocks.len(),
        avail(g.blocks[j].id).subset_of(graph_results(g)),
    ensures
        known_in(g, avail, j).subset_of(graph_results(g)),
{
    let instructions = g.blocks[j].instructions;
    lemma_computed_results(g, j, instructions.len() as int);
    assert(instructions.subrange(0, instructions.len() as int) =~= instructions);
}

/// Along a walk from the entry, what is available on entry to each block is computed by the
/// graph's instructions.
proof fn lemma_path_avail(g: SpecCfg, avail: spec_fn(BlockId) -> Set<ValueId>, path: Seq<BlockId>, i: int)
    requires
        runs_read_available(g, avail),
        is_entry_path(g, path),
        0 <= i < path.len(),
    ensures
        avail(path[i]).subset_of(graph_results(g)),
    decreases i,
{
    if i > 0 {
        lemma_path_avail(g, avail, path, i - 1);
        let x = path[i - 1];
        let y = path[i];
        assert(successors_spec(g, path[i - 1]).contains(path[i - 1 + 1]));
        lemma_find_block_from(g.blocks, x, 0);
        let j = find_block(g.blocks, x).unwrap();
        assert(edge_ok_in(g, avail, j, y));
        lemma_known_results(g, avail, j);
    } else {
        assert(avail(path[0]) =~= Set::<ValueId>::empty());
    }
}

/// Every value an instruction or a terminator of the graph a fresh builder makes of a block reads
/// is computed by one of the graph's instructions, given that each of its blocks is reachable and
/// its ids increase.
proof fn lemma_built_graph_reads_results(statements: Seq<SpecTypedStatement>)
    requires
        fits(build_statements_spec(initial_build_state(), statements)),
        ids_increasing(built_graph(statements).blocks),
        forall|j: int|
            0 <= j < built_graph(statements).blocks.len() ==> reachable_set(built_graph(statements)).contains(
                #[trigger] built_graph(statements).blocks[j].id,
            ),
    ensures
        ({
            let g = built_graph(statements);
            &&& forall|j: int, k: int|
                0 <= j < g.blocks.len() && 0 <= k < g.blocks[j].instructions.len() && (
                #[trigger] g.blocks[j].instructions[k]) is Binary ==> operand_in(
                    g.blocks[j].instructions[k]->Binary_left,
                    graph_results(g),
                ) && operand_in(g.blocks[j].instructions[k]->Binary_right, graph_results(g))
            &&& forall|j: int, k: int, i: int|
                0 <= j < g.blocks.len() && 0 <= k < g.blocks[j].instructions.len()
                    && g.blocks[j].instructions[k] is Phi && 0 <= i
                    < g.blocks[j].instructions[k]->Phi_incomings.len() ==> operand_in(
                    #[trigger] g.blocks[j].instructions[k]->Phi_incomings[i].1,
                    graph_results(g),
                )
            &&& forall|j: int|
                0 <= j < g.blocks.len() ==> terminator_reads(#[trigger] g.blocks[j].terminator, graph_results(g))
        }),
{
    let avail = lemma_built_reads(statements);
    let g = built_graph(statements);
    let r = graph_results(g);
    assert forall|j: int| 0 <= j < g.blocks.len() implies #[trigger] known_in(g, avail, j).subset_of(r)
        && avail(g.blocks[j].id).subset_of(r) by {
        assert(reachable_set(g).contains(g.blocks[j].id));
        let path = choose|path: Seq<BlockId>| #[trigger] is_entry_path(g, path) && path.last() == g.blocks[j].id;
        lemma_path_avail(g, avail, path, path.len() - 1);
        lemma_known_results(g, avail, j);
    }
    assert forall|j: int, k: int|
        0 <= j < g.blocks.len() && 0 <= k < g.blocks[j].instructions.len() && (
        #[trigger] g.blocks[j].instructions[k]) is Binary implies operand_in(
        g.blocks[j].instructions[k]->Binary_left,
        r,
    ) && operand_in(g.blocks[j].instructions[k]->Binary_right, r) by {
        assert(block_ok_in(g, avail, j));
        assert(known_in(g, avail, j).subset_of(r));
        lemma_computed_results(g, j, k);
    }
    assert forall|j: int| 0 <= j < g.blocks.len() implies terminator_reads(#[trigger] g.blocks[j].terminator, r) by {
        assert(block_ok_in(g, avail, j));
        assert(known_in(g, avail, j).subset_of(r));
    }
    assert forall|t: int, k: int, i: int|
        0 <= t < g.blocks.len() && 0 <= k < g.blocks[t].instructions.len() && g.blocks[t].instructions[k] is Phi
            && 0 <= i < g.blocks[t].instructions[k]->Phi_incomings.len() implies operand_in(
        #[trigger] g.blocks[t].instructions[k]->Phi_incomings[i].1,
        r,
    ) by {
        let incomings = g.blocks[t].instructions[k]->Phi_incomings;
        let p = incomings[i].0;
        let id = g.blocks[t].id;
        crate::build_laws::lemma_phi_incomings_are_predecessors(statements, t, k);
        assert(predecessors_spec(g, id).contains(p));
        crate::cfg::lemma_predecessors_from(g, id, 0, p);
        assert(successors_spec(g, p).contains(id));
        lemma_find_block_from(g.blocks, p, 0);
        let jp = find_block(g.blocks, p).unwrap();
        assert(edge_ok_in(g, avail, jp, id));
        lemma_find_block_from(g.blocks, id, 0);
        let tt = find_block(g.blocks, id).unwrap();
        if tt != t {
            if tt < t {
                assert(g.blocks[tt].id < g.blocks[t].id);
            } else {
                assert(g.blocks[t].id < g.blocks[tt].id);
            }
        }
        assert(phis_read(g.blocks[t], g.blocks[jp].id as int, known_in(g, avail, jp)));
        assert(incomings[i].0 as int == g.blocks[jp].id as int);
        assert(operand_in(incomings[i].1, known_in(g, avail, jp)));
        assert(known_in(g, avail, jp).subset_of(r));
    }
}

} // verus!
