use vstd::prelude::*;

use crate::build_laws::{built_graph, phi_free};
use crate::cfg::{
    build_statements_spec, find_block, fits, initial_build_state, is_entry_path, keep_blocks,
    lemma_find_block_from, prune_spec, reachable_set, successors_spec, terminator_targets, BlockId,
    Operand, SpecBlock, SpecCfg, SpecInstruction, Terminator, ValueId,
};
use crate::cfg_opt::{
    analysis_iterate, analysis_pass_from, analysis_spec, dce_spec, evaluate_binary_spec, fold_block_spec,
    is_fixpoint, known_keys, lattice_of_spec, mark_successors_spec, optimize_spec, phi_lattice,
    propagated_spec, rewrite_block_spec, rewrite_operand_spec, simplify_block_spec, simplify_spec, Lattice,
};
use crate::types::SpecTypedStatement;
use crate::cfg_opt_laws::{lemma_block_fixed, lemma_iterate_within, lemma_merge_stable, lemma_pass_from_within, lemma_stable_block};
use crate::optimized_laws::{block_ok_in, edge_ok_in, ids_increasing, known_in, runs_read_available};
use crate::value_laws::{computed, computed_by, operand_in};

verus! {

/// Whether what is available on entry to block `y` is known to the analysis, and `y` is the
/// entry or the target of an executable block that leaves only known values.
pub open spec fn entered_known(g: SpecCfg, avail: spec_fn(BlockId) -> Set<ValueId>, y: BlockId) -> bool {
    let (values, executable) = analysis_spec(g);
    &&& avail(y).subset_of(known_keys(values))
    &&& (y == g.entry || exists|q: int|
        0 <= q < g.blocks.len() && executable.contains(g.blocks[q].id) && #[trigger] terminator_targets(
            g.blocks[q].terminator,
        ).contains(y) && known_in(g, avail, q).subset_of(known_keys(values)))
}

/// A phi with an executable input whose value is known is known.
proof fn lemma_phi_known(
    incomings: Seq<(BlockId, Operand)>,
    n: int,
    values: Map<ValueId, Lattice>,
    executable: Set<BlockId>,
    i: int,
)
    requires
        0 <= i < n <= incomings.len(),
        executable.contains(incomings[i].0),
        !(lattice_of_spec(incomings[i].1, values) is Unknown),
    ensures
        !(phi_lattice(incomings, n, values, executable) is Unknown),
    decreases n,
{
    if i < n - 1 {
        lemma_phi_known(incomings, n - 1, values, executable, i);
    }
}

/// Ids are those of distinct blocks, so the block found for the id of block `m` is block `m`.
proof fn lemma_find_own(g: SpecCfg, m: int)
    requires
        ids_increasing(g.blocks),
        0 <= m < g.blocks.len(),
    ensures
        find_block(g.blocks, g.blocks[m].id) == Some(m),
{
    lemma_find_block_from(g.blocks, g.blocks[m].id, 0);
    if let Some(t) = find_block(g.blocks, g.blocks[m].id) {
        if t < m {
            assert(g.blocks[t].id < g.blocks[m].id);
        } else if m < t {
            assert(g.blocks[m].id < g.blocks[t].id);
        }
    }
}

/// An executable block entered with known values leaves only known values: the analysis, at
/// its fixpoint, knows every value the block computes.
proof fn lemma_known_out(g: SpecCfg, avail: spec_fn(BlockId) -> Set<ValueId>, m: int, n: int)
    requires
        runs_read_available(g, avail),
        ids_increasing(g.blocks),
        0 <= m < g.blocks.len(),
        0 <= n <= g.blocks[m].instructions.len(),
        analysis_spec(g).1.contains(g.blocks[m].id),
        entered_known(g, avail, g.blocks[m].id),
    ensures
        avail(g.blocks[m].id).union(computed(g.blocks[m].instructions.subrange(0, n))).subset_of(
            known_keys(analysis_spec(g).0),
        ),
    decreases n,
{
    let (values, executable) = analysis_spec(g);
    let k = known_keys(values);
    let b = g.blocks[m];
    let prefix = b.instructions.subrange(0, n);
    if n == 0 {
        assert(computed(prefix) =~= Set::<ValueId>::empty());
    } else {
        lemma_known_out(g, avail, m, n - 1);
        let before = b.instructions.subrange(0, n - 1);
        assert(prefix.drop_last() =~= before);
        let x = b.instructions[n - 1];
        assert(prefix.last() == x);
        let known = avail(b.id).union(computed(before));
        lemma_stable_block(g, m, n - 1);
        match x {
            SpecInstruction::Binary { result, op, left, right } => {
                assert(block_ok_in(g, avail, m));
                assert(before == b.instructions.subrange(0, n - 1));
                assert(operand_in(left, known) && operand_in(right, known));
                let ev = evaluate_binary_spec(op, lattice_of_spec(left, values), lattice_of_spec(right, values));
                assert(!(ev is Unknown));
                lemma_merge_stable(values, result, ev);
                assert(k.contains(result));
            },
            SpecInstruction::Phi { result, incomings, .. } => {
                let id = b.id;
                if id == g.entry {
                    let e = find_block(g.blocks, g.entry).unwrap();
                    lemma_find_own(g, m);
                    assert(phi_free(g.blocks[e]));
                    assert(g.blocks[m].instructions[n - 1] is Phi);
                    assert(false);
                } else {
                    let q = choose|q: int|
                        0 <= q < g.blocks.len() && executable.contains(g.blocks[q].id) && #[trigger] terminator_targets(
                            g.blocks[q].terminator,
                        ).contains(id) && known_in(g, avail, q).subset_of(k);
                    assert(edge_ok_in(g, avail, q, id));
                    lemma_find_own(g, m);
                    let pid = g.blocks[q].id;
                    assert(b.instructions[n - 1] is Phi);
                    let i = choose|i: int| 0 <= i < b.instructions[n - 1]->Phi_incomings.len()
                        && (#[trigger] b.instructions[n - 1]->Phi_incomings[i]).0 == pid;
                    assert(incomings[i].0 == pid);
                    assert(b.instructions[n - 1]->Phi_incomings[i] == incomings[i]);
                    assert(operand_in(incomings[i].1, known_in(g, avail, q)));
                    lemma_phi_known(incomings, incomings.len() as int, values, executable, i);
                    let pl = phi_lattice(incomings, incomings.len() as int, values, executable);
                    lemma_merge_stable(values, result, pl);
                    assert(k.contains(result));
                }
            },
            SpecInstruction::Bind { .. } => {},
        }
        assert forall|v: ValueId| computed_by(x).contains(v) implies k.contains(v) by {}
    }
}

/// Marking the successors of a terminator adds only blocks it targets.
proof fn lemma_marked_targets(terminator: Option<Terminator>, values: Map<ValueId, Lattice>, executable: Set<BlockId>, y: BlockId)
    requires
        mark_successors_spec(terminator, values, executable).contains(y),
        !executable.contains(y),
    ensures
        terminator_targets(terminator).contains(y),
{
    match terminator {
        Some(Terminator::Jump(target)) => {
            assert(terminator_targets(terminator)[0] == target);
        },
        Some(Terminator::Branch { then_block, else_block, .. }) => {
            assert(terminator_targets(terminator)[0] == then_block);
            assert(terminator_targets(terminator)[1] == else_block);
        },
        _ => {},
    }
}

/// Within one pass that ends inside the final executable blocks, every block marked so far was
/// entered with known values.
proof fn lemma_pass_known(
    g: SpecCfg,
    avail: spec_fn(BlockId) -> Set<ValueId>,
    state: (Map<ValueId, Lattice>, Set<BlockId>),
    m: int,
)
    requires
        runs_read_available(g, avail),
        ids_increasing(g.blocks),
        0 <= m <= g.blocks.len(),
        crate::cfg_opt::within(g, state),
        analysis_pass_from(g.blocks, g.blocks.len() as int, state.0, state.1).1.subset_of(analysis_spec(g).1),
        forall|y: BlockId| #[trigger] state.1.contains(y) ==> entered_known(g, avail, y),
    ensures
        forall|y: BlockId|
            #[trigger] analysis_pass_from(g.blocks, m, state.0, state.1).1.contains(y) ==> entered_known(g, avail, y),
    decreases m,
{
    if m > 0 {
        lemma_pass_known(g, avail, state, m - 1);
        let (v, e) = analysis_pass_from(g.blocks, m - 1, state.0, state.1);
        let b = g.blocks[m - 1];
        lemma_pass_from_within(g, m - 1, state);
        crate::cfg_opt_laws::lemma_pass_from_mono(g, m - 1, g.blocks.len() as int, state);
        if e.contains(b.id) {
            let after = crate::cfg_opt::evaluate_instructions(b.instructions, b.instructions.len() as int, v, e);
            let (values, executable) = analysis_spec(g);
            assert(executable.contains(b.id));
            lemma_known_out(g, avail, m - 1, b.instructions.len() as int);
            assert(b.instructions.subrange(0, b.instructions.len() as int) =~= b.instructions);
            assert(known_in(g, avail, m - 1).subset_of(known_keys(values)));
            assert forall|y: BlockId| #[trigger] mark_successors_spec(b.terminator, after, e).contains(y) implies entered_known(
                g,
                avail,
                y,
            ) by {
                if !e.contains(y) {
                    lemma_marked_targets(b.terminator, after, e, y);
                    assert(edge_ok_in(g, avail, m - 1, y));
                    assert(terminator_targets(g.blocks[m - 1].terminator).contains(y));
                }
            }
        }
    }
}

/// The executable blocks of every state up to the fixpoint are among the final ones.
proof fn lemma_iterate_sub(g: SpecCfg, n: nat, n_fix: nat)
    requires
        analysis_spec(g) == analysis_iterate(g, n_fix),
        n <= n_fix,
    ensures
        analysis_iterate(g, n).1.subset_of(analysis_spec(g).1),
    decreases n_fix - n,
{
    if n < n_fix {
        lemma_iterate_sub(g, n + 1, n_fix);
        lemma_iterate_within(g, n);
        let state = analysis_iterate(g, n);
        lemma_pass_from_within(g, g.blocks.len() as int, state);
    }
}

proof fn lemma_iterate_entered(g: SpecCfg, avail: spec_fn(BlockId) -> Set<ValueId>, n: nat, n_fix: nat)
    requires
        runs_read_available(g, avail),
        ids_increasing(g.blocks),
        analysis_spec(g) == analysis_iterate(g, n_fix),
        n <= n_fix,
    ensures
        forall|y: BlockId| #[trigger] analysis_iterate(g, n).1.contains(y) ==> entered_known(g, avail, y),
    decreases n,
{
    if n == 0 {
        assert forall|y: BlockId| #[trigger] analysis_iterate(g, 0).1.contains(y) implies entered_known(g, avail, y) by {
            assert(y == g.entry);
            assert(avail(g.entry) =~= Set::<ValueId>::empty());
        }
    } else {
        let prior = (n - 1) as nat;
        lemma_iterate_entered(g, avail, prior, n_fix);
        lemma_iterate_sub(g, n, n_fix);
        lemma_iterate_within(g, prior);
        let state = analysis_iterate(g, prior);
        assert(analysis_iterate(g, n) == analysis_pass_from(g.blocks, g.blocks.len() as int, state.0, state.1));
        lemma_pass_known(g, avail, state, g.blocks.len() as int);
    }
}

/// Every block the analysis finds executable was entered with known values.
proof fn lemma_executable_known(g: SpecCfg, avail: spec_fn(BlockId) -> Set<ValueId>)
    requires
        runs_read_available(g, avail),
        ids_increasing(g.blocks),
    ensures
        forall|y: BlockId| #[trigger] analysis_spec(g).1.contains(y) ==> entered_known(g, avail, y),
{
    let n_fix = choose|n: nat| is_fixpoint(g, #[trigger] analysis_iterate(g, n));
    assert(analysis_spec(g) == analysis_iterate(g, n_fix));
    lemma_iterate_entered(g, avail, n_fix, n_fix);
}

/// The terminator propagation and branch folding leave on an executable block: never a branch on
/// a constant, and only targets the analysis found executable.
proof fn lemma_folded_terminator(g: SpecCfg, avail: spec_fn(BlockId) -> Set<ValueId>, j: int)
    requires
        runs_read_available(g, avail),
        ids_increasing(g.blocks),
        0 <= j < g.blocks.len(),
        analysis_spec(g).1.contains(g.blocks[j].id),
    ensures
        ({
            let (values, executable) = analysis_spec(g);
            let t = propagated_spec(g).blocks[j].terminator;
            &&& !(t matches Some(Terminator::Branch { condition: Operand::Constant(_), .. }))
            &&& forall|y: BlockId| #[trigger] terminator_targets(t).contains(y) ==> executable.contains(y)
        }),
{
    let (values, executable) = analysis_spec(g);
    let k = known_keys(values);
    lemma_executable_known(g, avail);
    let b = g.blocks[j];
    lemma_known_out(g, avail, j, b.instructions.len() as int);
    assert(b.instructions.subrange(0, b.instructions.len() as int) =~= b.instructions);
    assert(known_in(g, avail, j).subset_of(k));
    assert(block_ok_in(g, avail, j));
    lemma_block_fixed(g, j);
    let r = rewrite_block_spec(b, values, executable);
    let h = propagated_spec(g);
    assert(h.blocks[j] == fold_block_spec(r, values, executable));
    let t = h.blocks[j].terminator;
    match b.terminator {
        Some(Terminator::Jump(target)) => {
            assert(t == b.terminator);
            assert(executable.insert(target) == executable);
            assert(executable.contains(target));
            assert forall|y: BlockId| #[trigger] terminator_targets(t).contains(y) implies executable.contains(y) by {
                assert(terminator_targets(t) =~= seq![target]);
            }
        },
        Some(Terminator::Branch { condition, then_block, else_block }) => {
            assert(operand_in(condition, known_in(g, avail, j)));
            let c2 = rewrite_operand_spec(condition, values);
            match lattice_of_spec(condition, values) {
                Lattice::Constant(v) => {
                    let chosen = if v != 0 {
                        then_block
                    } else {
                        else_block
                    };
                    assert(lattice_of_spec(c2, values) == Lattice::Constant(v));
                    assert(t == Some(Terminator::Jump(chosen)));
                    assert(executable.insert(chosen) == executable);
                    assert forall|y: BlockId| #[trigger] terminator_targets(t).contains(y) implies executable.contains(y) by {
                        assert(terminator_targets(t) =~= seq![chosen]);
                    }
                },
                Lattice::Overdefined => {
                    assert(c2 == condition);
                    assert(condition is Value);
                    assert(executable.insert(then_block).insert(else_block) == executable);
                    assert(executable.contains(then_block) && executable.contains(else_block));
                    assert forall|y: BlockId| #[trigger] terminator_targets(t).contains(y) implies executable.contains(y) by {
                        assert(terminator_targets(t) =~= seq![then_block, else_block]);
                    }
                },
                Lattice::Unknown => {
                    assert(condition is Value);
                    assert(false);
                },
            }
        },
        Some(Terminator::Return(v)) => {
            assert forall|y: BlockId| #[trigger] terminator_targets(t).contains(y) implies executable.contains(y) by {
                assert(terminator_targets(t) =~= Seq::<BlockId>::empty());
            }
        },
        None => {
            assert forall|y: BlockId| #[trigger] terminator_targets(t).contains(y) implies executable.contains(y) by {
                assert(terminator_targets(t) =~= Seq::<BlockId>::empty());
            }
        },
    }
}

/// Every block control can reach after propagation and folding was found executable.
proof fn lemma_propagated_reach(g: SpecCfg, avail: spec_fn(BlockId) -> Set<ValueId>, path: Seq<BlockId>, i: int)
    requires
        runs_read_available(g, avail),
        ids_increasing(g.blocks),
        is_entry_path(propagated_spec(g), path),
        0 <= i < path.len(),
    ensures
        analysis_spec(g).1.contains(path[i]),
    decreases i,
{
    let h = propagated_spec(g);
    if i == 0 {
        crate::cfg_opt_laws::lemma_analysis_fixpoint(g);
        assert(path[0] == g.entry);
    } else {
        lemma_propagated_reach(g, avail, path, i - 1);
        let x = path[i - 1];
        assert(successors_spec(h, path[i - 1]).contains(path[i - 1 + 1]));
        lemma_find_block_from(h.blocks, x, 0);
        let j = find_block(h.blocks, x).unwrap();
        assert(h.blocks[j].id == g.blocks[j].id);
        lemma_folded_terminator(g, avail, j);
    }
}

/// Pruning keeps only blocks of the graph.
proof fn lemma_kept_element(blocks: Seq<SpecBlock>, keep: Set<BlockId>, j: int)
    requires
        0 <= j < keep_blocks(blocks, keep).len(),
    ensures
        exists|q: int| 0 <= q < blocks.len() && #[trigger] blocks[q] == keep_blocks(blocks, keep)[j],
    decreases blocks.len(),
{
    let init = blocks.drop_last();
    let rest = keep_blocks(init, keep);
    if keep.contains(blocks.last().id) && j == rest.len() {
        assert(blocks[blocks.len() - 1] == keep_blocks(blocks, keep)[j]);
    } else {
        lemma_kept_element(init, keep, j);
        let q = choose|q: int| 0 <= q < init.len() && #[trigger] init[q] == rest[j];
        assert(blocks[q] == init[q]);
    }
}

/// No block of the optimized form of the graph a fresh builder makes of a block ends in a branch
/// on a constant: the analysis knows the condition of every branch it reaches, branches on known
/// constants become jumps, and only blocks the analysis reaches are kept.
pub proof fn lemma_optimized_graph_folds_constant_branches(statements: Seq<SpecTypedStatement>)
    requires
        fits(build_statements_spec(initial_build_state(), statements)),
    ensures
        forall|j: int|
            0 <= j < optimize_spec(built_graph(statements)).0.blocks.len() ==> !((
            #[trigger] optimize_spec(built_graph(statements)).0.blocks[j]).terminator matches Some(
                Terminator::Branch { condition: Operand::Constant(_), .. },
            )),
{
    let avail = crate::optimized_laws::lemma_built_reads(statements);
    let g = built_graph(statements);
    let h = propagated_spec(g);
    let g3 = prune_spec(h);
    let g4 = simplify_spec(g3);
    let o = optimize_spec(g).0;
    crate::cfg_opt_laws::lemma_dce_result(g4);
    assert(o == dce_spec(g4).0);
    assert forall|j: int| 0 <= j < o.blocks.len() implies !((#[trigger] o.blocks[j]).terminator matches Some(
        Terminator::Branch { condition: Operand::Constant(_), .. },
    )) by {
        assert(o.blocks[j].terminator == g4.blocks[j].terminator);
        assert(g4.blocks[j] == simplify_block_spec(g3, g3.blocks[j]));
        let kb = g3.blocks[j];
        crate::build_laws::lemma_keep_in(h.blocks, reachable_set(h), j);
        lemma_kept_element(h.blocks, reachable_set(h), j);
        let q = choose|q: int| 0 <= q < h.blocks.len() && #[trigger] h.blocks[q] == kb;
        assert(reachable_set(h).contains(kb.id));
        let path = choose|path: Seq<BlockId>| #[trigger] is_entry_path(h, path) && path.last() == kb.id;
        lemma_propagated_reach(g, avail, path, path.len() - 1);
        assert(h.blocks[q].id == g.blocks[q].id);
        lemma_folded_terminator(g, avail, q);
    }
}

} // verus!
