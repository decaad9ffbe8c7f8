use vstd::prelude::*;

use crate::build_laws::{built_graph, pruned_graph};
use crate::cfg::{
    build_expr_spec, build_statement_spec, build_statements_spec, close_branch, find_block, fits, if_head,
    if_states, initial_build_state, is_entry_path, lemma_find_block_from, merge_spec, reachable_set, successors_spec,
    terminator_targets, with_current, with_definitions, BlockId, Operand, SpecBlock, SpecCfg, Terminator, ValueId,
};
use crate::cfg_opt::simplify_block_spec;
use crate::cfg_runtime::{block_values, execute_spec, resolve_spec, run_spec, step_limit, CfgRuntimeError};
use crate::types::{SpecTypedStatement, Type, TypedExpr};

verus! {

/// The program `if b { return x; } else { return y; }`.
pub open spec fn choice(b: bool, x: i64, y: i64) -> Seq<SpecTypedStatement> {
    seq![
        SpecTypedStatement::If {
            condition: TypedExpr::Boolean { value: b, ty: Type::Bool },
            then_branch: seq![SpecTypedStatement::Return { value: TypedExpr::Integer { value: x, ty: Type::I64 } }],
            else_branch: seq![SpecTypedStatement::Return { value: TypedExpr::Integer { value: y, ty: Type::I64 } }],
        },
    ]
}

proof fn lemma_choice_blocks(b: bool, x: i64, y: i64)
    ensures
        ({
            let blocks = build_statements_spec(initial_build_state(), choice(b, x, y)).blocks;
            &&& blocks.len() == 4
            &&& build_statements_spec(initial_build_state(), choice(b, x, y)).next_value == 0
            &&& blocks[0].id == 0 && blocks[1].id == 1 && blocks[2].id == 2
            &&& blocks[0].instructions.len() == 0
            &&& blocks[1].instructions.len() == 0
            &&& blocks[2].instructions.len() == 0
            &&& blocks[0].terminator == Some(
                Terminator::Branch {
                    condition: Operand::Constant(if b { 1i64 } else { 0i64 }),
                    then_block: 1,
                    else_block: 2,
                },
            )
            &&& blocks[1].terminator == Some(Terminator::Return(Operand::Constant(x)))
            &&& blocks[2].terminator == Some(Terminator::Return(Operand::Constant(y)))
        }),
{
    let init = initial_build_state();
    let statement = choice(b, x, y)[0];
    let then_branch = seq![SpecTypedStatement::Return { value: TypedExpr::Integer { value: x, ty: Type::I64 } }];
    let else_branch = seq![SpecTypedStatement::Return { value: TypedExpr::Integer { value: y, ty: Type::I64 } }];
    let cond = TypedExpr::Boolean { value: b, ty: Type::Bool };
    let h = if_head(init, cond);
    assert(h.blocks.len() == 4);
    assert(h.blocks[0].terminator == Some(
        Terminator::Branch { condition: Operand::Constant(if b { 1i64 } else { 0i64 }), then_block: 1, else_block: 2 },
    ));
    let start_then = with_current(h, 1);
    let ret_x = then_branch[0];
    let a1 = build_statement_spec(start_then, ret_x);
    assert(a1.blocks[1].terminator == Some(Terminator::Return(Operand::Constant(x))));
    assert(build_statements_spec(a1, then_branch.subrange(1, 1)) == a1);
    let s4 = build_statements_spec(start_then, then_branch);
    assert(s4 == a1);
    let s5 = close_branch(s4, 3);
    assert(s5 == s4);
    let start_else = with_definitions(with_current(s5, 2), h.definitions);
    let ret_y = else_branch[0];
    let a2 = build_statement_spec(start_else, ret_y);
    assert(build_statements_spec(a2, else_branch.subrange(1, 1)) == a2);
    let s6 = build_statements_spec(start_else, else_branch);
    assert(s6 == a2);
    let s7 = close_branch(s6, 3);
    assert(s7 == s6);
    assert(if_states(init, statement) == (h, s4, s5, s6, s7));
    let after = build_statement_spec(init, statement);
    assert(after.blocks == s7.blocks);
    assert(build_statements_spec(after, choice(b, x, y).subrange(1, 1)) == after);
    assert(build_statements_spec(init, choice(b, x, y)) == after);
}

/// The block of the built graph with id `id`, where `id` is the id of a block of the raw blocks
/// control reaches, is that raw block with its phis simplified.
proof fn lemma_block_of(b: bool, x: i64, y: i64, id: BlockId)
    requires
        reachable_set(built_graph(choice(b, x, y))).contains(id),
    ensures
        ({
            let g = built_graph(choice(b, x, y));
            let raw = build_statements_spec(initial_build_state(), choice(b, x, y)).blocks;
            find_block(g.blocks, id) matches Some(k) && (id as int) < raw.len() && g.blocks[k] == simplify_block_spec(
                pruned_graph(choice(b, x, y)),
                raw[id as int],
            )
        }),
{
    let statements = choice(b, x, y);
    lemma_choice_blocks(b, x, y);
    crate::optimized_laws::lemma_built_graph_shape(statements);
    let g = built_graph(statements);
    let raw = build_statements_spec(initial_build_state(), statements).blocks;
    let p = pruned_graph(statements);
    assert(fits(build_statements_spec(initial_build_state(), statements)));
    crate::build_laws::lemma_built_blocks(statements);
    crate::build_laws::lemma_kept_blocks(raw, reachable_set(SpecCfg { entry: 0, blocks: raw }));
    lemma_find_block_from(g.blocks, id, 0);
    let k = find_block(g.blocks, id).unwrap();
    assert(g.blocks[k] == simplify_block_spec(p, p.blocks[k]));
    assert(p.blocks[k] == raw[p.blocks[k].id as int]);
}

/// A branch on a literal takes the branch it names: `if true { return x; } else { return y; }`
/// returns `x` and `if false { return x; } else { return y; }` returns `y`, whatever `x` and `y`
/// are.
pub proof fn lemma_branch_on_literal(b: bool, x: i64, y: i64)
    ensures
        execute_spec(built_graph(choice(b, x, y))) == Ok::<i64, CfgRuntimeError>(if b { x } else { y }),
{
    let statements = choice(b, x, y);
    lemma_choice_blocks(b, x, y);
    let raw = build_statements_spec(initial_build_state(), statements).blocks;
    assert(fits(build_statements_spec(initial_build_state(), statements)));
    crate::optimized_laws::lemma_built_graph_shape(statements);
    let g = built_graph(statements);
    let p = pruned_graph(statements);
    crate::cfg::lemma_entry_reachable(g);
    assert(reachable_set(g).contains(0));
    lemma_block_of(b, x, y, 0);
    let k0 = find_block(g.blocks, 0).unwrap();
    let b0 = g.blocks[k0];
    assert(b0.instructions =~= Seq::empty());
    let target: BlockId = if b { 1 } else { 2 };
    assert(successors_spec(g, 0) == terminator_targets(b0.terminator));
    assert(terminator_targets(b0.terminator) =~= seq![1 as BlockId, 2 as BlockId]);
    assert(is_entry_path(g, seq![0 as BlockId, target])) by {
        assert(successors_spec(g, 0).contains(target)) by {
            if b {
                assert(successors_spec(g, 0)[0] == target);
            } else {
                assert(successors_spec(g, 0)[1] == target);
            }
        }
    }
    assert(seq![0 as BlockId, target].last() == target);
    assert(reachable_set(g).contains(target));
    lemma_block_of(b, x, y, target);
    let kt = find_block(g.blocks, target).unwrap();
    let bt = g.blocks[kt];
    assert(bt.instructions =~= Seq::empty());
    let empty = Map::<ValueId, i64>::empty();
    assert(block_values(b0, None, empty) == Ok::<Map<ValueId, i64>, CfgRuntimeError>(empty));
    assert(block_values(bt, Some(0), empty) == Ok::<Map<ValueId, i64>, CfgRuntimeError>(empty));
    let fuel = step_limit();
    assert(fuel > 1);
    assert(run_spec(g, (fuel - 1) as nat, target, Some(0), empty) == Ok::<i64, CfgRuntimeError>(
        if b { x } else { y },
    ));
    assert(run_spec(g, fuel, 0, None, empty) == run_spec(g, (fuel - 1) as nat, target, Some(0), empty));
}

} // verus!
