use vstd::prelude::*;

use crate::build_laws::{built_graph, pruned_graph};
use crate::cfg::{
    branch_live, build_expr_spec, build_state_wf, build_statement_spec, build_statements_spec, close_branch,
    fits, if_head, if_states, initial_build_state, lemma_build_expr_grows,
    lemma_build_statement_grows, lemma_build_statements_grows, lemma_if_chain, lemma_merge_grows,
    lemma_merge_step_grows, merge_spec, merge_step, reachable_set, with_current, with_definitions,
    with_instruction, with_new_block, with_next_value, with_terminator, BlockId, BuildState, Operand, SpecBlock,
    SpecCfg, SpecInstruction, Terminator, ValueId,
};
use crate::cfg_opt::{result_key, simplify_block_spec, simplify_instruction_spec};
use crate::types::{SpecTypedStatement, SymbolId, TypedExpr};

verus! {

/// Whether an instruction computes a value (a binary operation or a phi).
pub open spec fn computes(instruction: SpecInstruction) -> bool {
    !(instruction is Bind)
}

/// Whether every value the blocks compute is below `next`, and no two instructions compute the
/// same value.
pub open spec fn results_unique(blocks: Seq<SpecBlock>, next: int) -> bool {
    &&& forall|m: int, k: int|
        0 <= m < blocks.len() && 0 <= k < blocks[m].instructions.len() && computes(
            #[trigger] blocks[m].instructions[k],
        ) ==> (result_key(blocks[m].instructions[k]) as int) < next
    &&& forall|m1: int, k1: int, m2: int, k2: int|
        0 <= m1 < blocks.len() && 0 <= k1 < blocks[m1].instructions.len() && 0 <= m2 < blocks.len() && 0
            <= k2 < blocks[m2].instructions.len() && computes(#[trigger] blocks[m1].instructions[k1]) && computes(
            #[trigger] blocks[m2].instructions[k2],
        ) && (m1 != m2 || k1 != k2) ==> result_key(blocks[m1].instructions[k1]) != result_key(
            blocks[m2].instructions[k2],
        )
}

pub open spec fn fresh(s: BuildState) -> bool {
    results_unique(s.blocks, s.next_value)
}

/// Blocks that hold the same instructions, in the same places.
pub open spec fn same_instructions(a: Seq<SpecBlock>, b: Seq<SpecBlock>) -> bool {
    &&& a.len() <= b.len()
    &&& forall|m: int| 0 <= m < a.len() ==> (#[trigger] b[m]).instructions == a[m].instructions
    &&& forall|m: int| a.len() <= m < b.len() ==> (#[trigger] b[m]).instructions.len() == 0
}

/// Steps that add no instruction and do not lower the next value keep the results unique.
proof fn lemma_same_instructions_fresh(s: BuildState, t: BuildState)
    requires
        fresh(s),
        same_instructions(s.blocks, t.blocks),
        s.next_value <= t.next_value,
    ensures
        fresh(t),
{
    let a = s.blocks;
    let b = t.blocks;
    assert forall|m: int, k: int|
        0 <= m < b.len() && 0 <= k < b[m].instructions.len() && computes(#[trigger] b[m].instructions[k]) implies (
        result_key(b[m].instructions[k]) as int) < t.next_value by {
        assert(m < a.len());
        assert(b[m].instructions[k] == a[m].instructions[k]);
    }
    assert forall|m1: int, k1: int, m2: int, k2: int|
        0 <= m1 < b.len() && 0 <= k1 < b[m1].instructions.len() && 0 <= m2 < b.len() && 0 <= k2
            < b[m2].instructions.len() && computes(#[trigger] b[m1].instructions[k1]) && computes(
            #[trigger] b[m2].instructions[k2],
        ) && (m1 != m2 || k1 != k2) implies result_key(b[m1].instructions[k1]) != result_key(
        b[m2].instructions[k2],
    ) by {
        assert(m1 < a.len() && m2 < a.len());
        assert(b[m1].instructions[k1] == a[m1].instructions[k1]);
        assert(b[m2].instructions[k2] == a[m2].instructions[k2]);
    }
}

/// Adding an instruction that computes nothing, or that computes the next value while the next
/// value moves on, keeps the results unique.
proof fn lemma_push_fresh(s: BuildState, instruction: SpecInstruction, next: int)
    requires
        fresh(s),
        0 <= s.current < s.blocks.len(),
        computes(instruction) ==> result_key(instruction) as int == s.next_value && next == s.next_value + 1,
        !computes(instruction) ==> next == s.next_value,
    ensures
        fresh(with_instruction(with_next_value(s, next), instruction)),
{
    let a = s.blocks;
    let t = with_instruction(with_next_value(s, next), instruction);
    let b = t.blocks;
    let c = s.current;
    let n = a[c].instructions.len();
    assert(b[c].instructions == a[c].instructions.push(instruction));
    assert forall|m: int, k: int|
        0 <= m < b.len() && 0 <= k < b[m].instructions.len() && computes(#[trigger] b[m].instructions[k]) implies (
        result_key(b[m].instructions[k]) as int) < t.next_value by {
        if m != c || k < n {
            assert(b[m].instructions[k] == a[m].instructions[k]);
        }
    }
    assert forall|m1: int, k1: int, m2: int, k2: int|
        0 <= m1 < b.len() && 0 <= k1 < b[m1].instructions.len() && 0 <= m2 < b.len() && 0 <= k2
            < b[m2].instructions.len() && computes(#[trigger] b[m1].instructions[k1]) && computes(
            #[trigger] b[m2].instructions[k2],
        ) && (m1 != m2 || k1 != k2) implies result_key(b[m1].instructions[k1]) != result_key(
        b[m2].instructions[k2],
    ) by {
        if m1 != c || k1 < n {
            assert(b[m1].instructions[k1] == a[m1].instructions[k1]);
        }
        if m2 != c || k2 < n {
            assert(b[m2].instructions[k2] == a[m2].instructions[k2]);
        }
    }
}

proof fn lemma_expr_fresh(s: BuildState, expr: TypedExpr)
    requires
        build_state_wf(s),
        fresh(s),
        build_expr_spec(s, expr).0.next_value <= u32::MAX,
    ensures
        fresh(build_expr_spec(s, expr).0),
    decreases expr,
{
    if let TypedExpr::Binary { left, op, right, .. } = expr {
        lemma_build_expr_grows(s, *left);
        let (s1, l) = build_expr_spec(s, *left);
        lemma_build_expr_grows(s1, *right);
        let (s2, r) = build_expr_spec(s1, *right);
        lemma_expr_fresh(s, *left);
        lemma_expr_fresh(s1, *right);
        let result = s2.next_value;
        lemma_push_fresh(s2, SpecInstruction::Binary { result: result as ValueId, op, left: l, right: r }, result + 1);
    }
}

proof fn lemma_statements_fresh(s: BuildState, statements: Seq<SpecTypedStatement>)
    requires
        build_state_wf(s),
        fresh(s),
        build_statements_spec(s, statements).next_value <= u32::MAX,
    ensures
        fresh(build_statements_spec(s, statements)),
    decreases statements, 2nat,
{
    if !(statements.len() == 0 || !(0 <= s.current < s.blocks.len()) || s.blocks[s.current].terminator is Some) {
        lemma_build_statement_grows(s, statements[0]);
        let after = build_statement_spec(s, statements[0]);
        let rest = statements.subrange(1, statements.len() as int);
        lemma_build_statements_grows(after, rest);
        lemma_statement_fresh(s, statements[0]);
        lemma_statements_fresh(after, rest);
    }
}

proof fn lemma_terminator_fresh(s: BuildState, block: int, terminator: Terminator)
    requires
        fresh(s),
        0 <= block < s.blocks.len(),
    ensures
        fresh(with_terminator(s, block, terminator)),
{
    lemma_same_instructions_fresh(s, with_terminator(s, block, terminator));
}

proof fn lemma_close_fresh(s: BuildState, merge_block: int)
    requires
        fresh(s),
    ensures
        fresh(close_branch(s, merge_block)),
{
    if branch_live(s) {
        lemma_terminator_fresh(s, s.current, Terminator::Jump(merge_block as BlockId));
    }
}

proof fn lemma_merge_fresh(
    s: BuildState,
    outer: Seq<(SymbolId, Operand)>,
    k: int,
    t: Seq<(SymbolId, Operand)>,
    e: Seq<(SymbolId, Operand)>,
    te: int,
    ee: int,
    tl: bool,
    el: bool,
)
    requires
        build_state_wf(s),
        fresh(s),
        merge_spec(s, outer, k, t, e, te, ee, tl, el).next_value <= u32::MAX,
    ensures
        fresh(merge_spec(s, outer, k, t, e, te, ee, tl, el)),
    decreases outer.len() - k,
{
    if 0 <= k < outer.len() {
        let next = merge_step(s, outer[k].0, outer[k].1, t, e, te, ee, tl, el);
        lemma_merge_step_grows(s, outer[k].0, outer[k].1, t, e, te, ee, tl, el);
        lemma_merge_grows(next, outer, k + 1, t, e, te, ee, tl, el);
        let symbol = outer[k].0;
        let tv = crate::cfg::branch_operand(t, symbol);
        let ev = crate::cfg::branch_operand(e, symbol);
        if tl && el && tv != ev {
            let result = s.next_value;
            lemma_push_fresh(
                s,
                SpecInstruction::Phi {
                    result: result as ValueId,
                    symbol_id: symbol,
                    incomings: seq![(te as BlockId, tv), (ee as BlockId, ev)],
                },
                result + 1,
            );
        }
        assert(fresh(next)) by {
            if !(tl && el && tv != ev) {
                lemma_same_instructions_fresh(s, next);
            }
        }
        lemma_merge_fresh(next, outer, k + 1, t, e, te, ee, tl, el);
    }
}

proof fn lemma_statement_fresh(s: BuildState, statement: SpecTypedStatement)
    requires
        build_state_wf(s),
        fresh(s),
        build_statement_spec(s, statement).next_value <= u32::MAX,
    ensures
        fresh(build_statement_spec(s, statement)),
    decreases statement, 1nat,
{
    match statement {
        SpecTypedStatement::Let { symbol, value } => {
            lemma_build_expr_grows(s, value);
            let (s1, op) = build_expr_spec(s, value);
            lemma_expr_fresh(s, value);
            let bind = SpecInstruction::Bind { symbol_id: symbol.spec_id(), value: op };
            lemma_push_fresh(s1, bind, s1.next_value);
            assert(with_next_value(s1, s1.next_value) == s1);
            let s2 = with_instruction(s1, bind);
            lemma_same_instructions_fresh(s2, build_statement_spec(s, statement));
        },
        SpecTypedStatement::Assign { symbol, value } => {
            lemma_build_expr_grows(s, value);
            let (s1, op) = build_expr_spec(s, value);
            lemma_expr_fresh(s, value);
            let bind = SpecInstruction::Bind { symbol_id: symbol.spec_id(), value: op };
            lemma_push_fresh(s1, bind, s1.next_value);
            assert(with_next_value(s1, s1.next_value) == s1);
            let s2 = with_instruction(s1, bind);
            lemma_same_instructions_fresh(s2, build_statement_spec(s, statement));
        },
        SpecTypedStatement::Return { value } => {
            lemma_build_expr_grows(s, value);
            let (s1, op) = build_expr_spec(s, value);
            lemma_expr_fresh(s, value);
            lemma_terminator_fresh(s1, s1.current, Terminator::Return(op));
        },
        SpecTypedStatement::If { condition, then_branch, else_branch } => {
            lemma_if_chain(s, statement);
            let (h, s4, s5, s6, s7) = if_states(s, statement);
            let then_block = h.blocks.len() - 3;
            let start_then = with_current(h, then_block);
            let start_else = with_definitions(with_current(s5, then_block + 1), h.definitions);
            let start_merge = with_definitions(with_current(s7, then_block + 2), Seq::empty());
            let (s1, c) = build_expr_spec(s, condition);
            lemma_expr_fresh(s, condition);
            let s2 = with_new_block(with_new_block(with_new_block(s1)));
            lemma_same_instructions_fresh(s1, s2);
            lemma_terminator_fresh(
                s2,
                s2.current,
                Terminator::Branch {
                    condition: c,
                    then_block: s1.blocks.len() as BlockId,
                    else_block: (s1.blocks.len() + 1) as BlockId,
                },
            );
            assert(h == if_head(s, condition));
            lemma_same_instructions_fresh(h, start_then);
            lemma_statements_fresh(start_then, then_branch);
            lemma_close_fresh(s4, then_block + 2);
            lemma_same_instructions_fresh(s5, start_else);
            lemma_statements_fresh(start_else, else_branch);
            lemma_close_fresh(s6, then_block + 2);
            lemma_same_instructions_fresh(s7, start_merge);
            lemma_merge_fresh(
                start_merge,
                h.definitions,
                0,
                s5.definitions,
                s7.definitions,
                s4.current,
                s6.current,
                branch_live(s4),
                branch_live(s6),
            );
        },
    }
}

/// No two instructions of the graph a fresh builder makes of a block compute the same value:
/// each binary operation and each phi gets a value of its own.
pub proof fn lemma_built_results_unique(statements: Seq<SpecTypedStatement>)
    requires
        fits(build_statements_spec(initial_build_state(), statements)),
    ensures
        ({
            let g = built_graph(statements);
            forall|j1: int, k1: int, j2: int, k2: int|
                0 <= j1 < g.blocks.len() && 0 <= k1 < g.blocks[j1].instructions.len() && 0 <= j2
                    < g.blocks.len() && 0 <= k2 < g.blocks[j2].instructions.len() && computes(
                    #[trigger] g.blocks[j1].instructions[k1],
                ) && computes(#[trigger] g.blocks[j2].instructions[k2]) && (j1 != j2 || k1 != k2)
                    ==> result_key(g.blocks[j1].instructions[k1]) != result_key(g.blocks[j2].instructions[k2])
        }),
{
    let init = initial_build_state();
    assert(build_state_wf(init));
    assert(fresh(init));
    lemma_statements_fresh(init, statements);
    crate::build_laws::lemma_built_blocks(statements);
    let blocks = build_statements_spec(init, statements).blocks;
    let raw = SpecCfg { entry: 0, blocks };
    let p = pruned_graph(statements);
    let g = built_graph(statements);
    crate::build_laws::lemma_kept_blocks(blocks, reachable_set(raw));
    assert forall|j1: int, k1: int, j2: int, k2: int|
        0 <= j1 < g.blocks.len() && 0 <= k1 < g.blocks[j1].instructions.len() && 0 <= j2 < g.blocks.len() && 0
            <= k2 < g.blocks[j2].instructions.len() && computes(#[trigger] g.blocks[j1].instructions[k1])
            && computes(#[trigger] g.blocks[j2].instructions[k2]) && (j1 != j2 || k1 != k2) implies result_key(
        g.blocks[j1].instructions[k1],
    ) != result_key(g.blocks[j2].instructions[k2]) by {
        let b1 = p.blocks[j1];
        let b2 = p.blocks[j2];
        assert(g.blocks[j1] == simplify_block_spec(p, b1));
        assert(g.blocks[j2] == simplify_block_spec(p, b2));
        let m1 = b1.id as int;
        let m2 = b2.id as int;
        assert(b1 == blocks[m1]);
        assert(b2 == blocks[m2]);
        if j1 < j2 {
            assert(b1.id < b2.id);
        } else if j2 < j1 {
            assert(b2.id < b1.id);
        }
        let x1 = blocks[m1].instructions[k1];
        let x2 = blocks[m2].instructions[k2];
        assert(result_key(simplify_instruction_spec(x1, crate::cfg::predecessors_spec(p, b1.id))) == result_key(x1));
        assert(result_key(simplify_instruction_spec(x2, crate::cfg::predecessors_spec(p, b2.id))) == result_key(x2));
        assert(computes(x1) && computes(x2));
    }
}

} // verus!
