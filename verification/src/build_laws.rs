use vstd::prelude::*;

use crate::ast::{Expr, SpecStatement};
use crate::cfg_opt_laws::{lemma_find_kept, lemma_keep_sub};
use crate::check_laws::{typed_block_returns, typed_statement_returns};
use crate::cfg_opt::{
    Lattice, analysis_spec, dce_block_spec, dce_from, dce_pass_spec, dead_total, fold_block_spec, instruction_total,
    optimize_spec, propagated_spec, rewrite_block_spec, simplify_block_spec, simplify_spec, used_values,
    live_incomings, simplify_instruction_spec,
};
use crate::cfg_runtime::{
    binary_spec, block_values, execute_spec, phi_results, record, resolve_spec, run_instructions, run_spec,
    step_limit, CfgRuntimeError,
};
use crate::cfg::{
    is_entry_path, lemma_entry_reachable, lemma_reachable_step, reachable_spec, define_spec, lemma_build_expr_grows, lemma_merge_step_grows, lemma_definition_index, find_block, fits, initial_build_state, keep_blocks, lemma_find_block_from, lemma_predecessors_from,
    predecessors_from, predecessors_spec, prune_spec, reachable_set, successors_spec, SpecCfg,
    branch_live, build_statement_spec, build_statements_spec, if_states, lemma_build_statement_grows,
    lemma_build_statements_grows, lemma_if_chain, with_current, with_definitions, branch_operand, merge_spec, merge_step, with_next_value, block_scoped, build_expr_spec, build_state_wf, expr_scoped, statement_scoped,
    terminator_targets, with_instruction, with_new_block, with_terminator, BlockId, BuildState,
    Operand, SpecBlock, SpecInstruction, Terminator, ValueId,
};
use crate::types::{
    check_block_spec, check_expr_spec, check_spec, check_statement_spec, lookup, CheckState,
    SpecTypedStatement, Symbol, SymbolId, TypedExpr,
};

verus! {

/// Whether `defined` holds the id of every symbol in `scope`.
pub open spec fn covers(defined: Set<SymbolId>, scope: Seq<Symbol>) -> bool {
    forall|i: int| 0 <= i < scope.len() ==> defined.contains(#[trigger] scope[i].spec_id())
}

/// The symbol ids bound by the symbols of `scope`.
pub open spec fn scope_ids(scope: Seq<Symbol>) -> Set<SymbolId> {
    Set::new(|id: SymbolId| exists|i: int| 0 <= i < scope.len() && scope[i].spec_id() == id)
}

/// The symbols the checker binds a statement to, added to `defined`.
pub open spec fn defined_after(defined: Set<SymbolId>, statement: SpecTypedStatement) -> Set<SymbolId> {
    match statement {
        SpecTypedStatement::Let { symbol, .. } => defined.insert(symbol.spec_id()),
        SpecTypedStatement::Assign { symbol, .. } => defined.insert(symbol.spec_id()),
        _ => defined,
    }
}

proof fn lemma_lookup_in_scope(scope: Seq<Symbol>, name: Seq<char>)
    ensures
        lookup(scope, name) matches Some(symbol) ==> exists|i: int|
            0 <= i < scope.len() && #[trigger] scope[i] == symbol,
    decreases scope.len(),
{
    if scope.len() > 0 && scope[0].spec_name()@ != name {
        let rest = scope.subrange(1, scope.len() as int);
        lemma_lookup_in_scope(rest, name);
        if let Some(symbol) = lookup(rest, name) {
            let i = choose|i: int| 0 <= i < rest.len() && #[trigger] rest[i] == symbol;
            assert(scope[i + 1] == symbol);
        }
    } else if scope.len() > 0 {
        assert(scope[0] == scope[0]);
    }
}

proof fn lemma_checked_expr_scoped(scope: Seq<Symbol>, defined: Set<SymbolId>, expr: Expr)
    requires
        covers(defined, scope),
    ensures
        check_expr_spec(scope, expr) matches Ok(typed) ==> expr_scoped(defined, typed),
    decreases expr,
{
    match expr {
        Expr::Identifier(name) => {
            lemma_lookup_in_scope(scope, name@);
        },
        Expr::Binary { left, right, .. } => {
            lemma_checked_expr_scoped(scope, defined, *left);
            lemma_checked_expr_scoped(scope, defined, *right);
        },
        _ => {},
    }
}

proof fn lemma_checked_block_scoped(state: CheckState, defined: Set<SymbolId>, statements: Seq<SpecStatement>)
    requires
        covers(defined, state.scope),
    ensures
        check_block_spec(state, statements).0 matches Ok(typed) ==> block_scoped(defined, typed),
    decreases statements, 1nat,
{
    if statements.len() > 0 {
        let rest = statements.subrange(1, statements.len() as int);
        lemma_checked_statement_scoped(state, defined, statements[0]);
        let (first, after) = check_statement_spec(state, statements[0]);
        if let Ok(typed) = first {
            let next = defined_after(defined, typed);
            lemma_checked_block_scoped(after, next, rest);
            if let Ok(typed_rest) = check_block_spec(after, rest).0 {
                let all = seq![typed] + typed_rest;
                assert(all[0] == typed);
                assert(all.subrange(1, all.len() as int) =~= typed_rest);
            }
        }
    }
}

proof fn lemma_checked_statement_scoped(state: CheckState, defined: Set<SymbolId>, statement: SpecStatement)
    requires
        covers(defined, state.scope),
    ensures
        check_statement_spec(state, statement).0 matches Ok(typed) ==> {
            &&& statement_scoped(defined, typed)
            &&& covers(defined_after(defined, typed), check_statement_spec(state, statement).1.scope)
        },
    decreases statement, 0nat,
{
    match statement {
        SpecStatement::Let { value, .. } => {
            lemma_checked_expr_scoped(state.scope, defined, value);
            if let Ok(SpecTypedStatement::Let { symbol, .. }) = check_statement_spec(state, statement).0 {
                let after = check_statement_spec(state, statement).1;
                assert(after.scope == state.scope.push(symbol));
                assert forall|i: int| 0 <= i < after.scope.len() implies defined.insert(
                    symbol.spec_id(),
                ).contains(#[trigger] after.scope[i].spec_id()) by {
                    if i < state.scope.len() {
                        assert(after.scope[i] == state.scope[i]);
                    }
                }
            }
        },
        SpecStatement::Assign { name, value } => {
            lemma_checked_expr_scoped(state.scope, defined, value);
        },
        SpecStatement::Return(value) => {
            lemma_checked_expr_scoped(state.scope, defined, value);
        },
        SpecStatement::If { condition, then_branch, else_branch } => {
            lemma_checked_expr_scoped(state.scope, defined, condition);
            lemma_checked_block_scoped(state, defined, then_branch);
            let after_then = check_block_spec(state, then_branch).1;
            let between = CheckState {
                scope: state.scope,
                symbols: after_then.symbols,
                next_id: after_then.next_id,
            };
            lemma_checked_block_scoped(between, defined, else_branch);
        },
    }
}

/// A program the type checker accepts reads no symbol before binding it: every symbol an
/// expression of the typed program reads is bound in the scope the checker started from or
/// earlier on the way to that expression (and a binding made inside a branch is read only there).
pub proof fn lemma_checked_program_is_scoped(state: CheckState, statements: Seq<SpecStatement>)
    ensures
        check_spec(state, statements).0 matches Ok((typed, _)) ==> block_scoped(
            scope_ids(state.scope),
            typed,
        ),
{
    let defined = scope_ids(state.scope);
    assert forall|i: int| 0 <= i < state.scope.len() implies defined.contains(
        #[trigger] state.scope[i].spec_id(),
    ) by {
        assert(0 <= i < state.scope.len() && state.scope[i].spec_id() == state.scope[i].spec_id());
    }
    lemma_checked_block_scoped(state, defined, statements);
}


/// Whether the terminator of `b` may send control to the block at position `m`.
pub open spec fn targets(b: SpecBlock, m: int) -> bool {
    terminator_targets(b.terminator).contains(m as BlockId)
}

/// Whether a block holds no phi.
pub open spec fn phi_free(b: SpecBlock) -> bool {
    forall|k: int| 0 <= k < b.instructions.len() ==> !(#[trigger] b.instructions[k] is Phi)
}

/// Whether the blocks at positions `a` and `c` are two distinct blocks that end with a jump to the
/// block at position `m`, and are the only blocks that can send control there.
pub open spec fn sole_jumps(blocks: Seq<SpecBlock>, m: int, a: int, c: int) -> bool {
    &&& a != c
    &&& 0 <= a < blocks.len()
    &&& 0 <= c < blocks.len()
    &&& blocks[a].terminator == Some(Terminator::Jump(m as BlockId))
    &&& blocks[c].terminator == Some(Terminator::Jump(m as BlockId))
    &&& forall|p: int| 0 <= p < blocks.len() && #[trigger] targets(blocks[p], m) ==> p == a || p == c
}

/// Whether a phi at position `m` merges control from exactly the blocks that jump to `m`.
pub open spec fn phi_sound(blocks: Seq<SpecBlock>, m: int, incomings: Seq<(BlockId, Operand)>) -> bool {
    &&& incomings.len() == 2
    &&& sole_jumps(blocks, m, incomings[0].0 as int, incomings[1].0 as int)
}

/// Whether every phi of the blocks is sound.
pub open spec fn phis_sound(blocks: Seq<SpecBlock>) -> bool {
    forall|m: int, k: int|
        #![trigger blocks[m].instructions[k]]
        0 <= m < blocks.len() && 0 <= k < blocks[m].instructions.len() && blocks[m].instructions[k] is Phi
            ==> phi_sound(blocks, m, blocks[m].instructions[k]->Phi_incomings)
}

/// Whether every terminator names blocks that exist.
pub open spec fn targets_in_range(blocks: Seq<SpecBlock>) -> bool {
    forall|p: int, x: BlockId|
        0 <= p < blocks.len() && #[trigger] terminator_targets(blocks[p].terminator).contains(x) ==> (x as int)
            < blocks.len()
}

/// What holds of every state of construction whose block ids fit in 32 bits.
pub open spec fn build_inv(s: BuildState) -> bool {
    &&& build_state_wf(s)
    &&& s.blocks.len() <= u32::MAX + 1
    &&& targets_in_range(s.blocks)
    &&& phis_sound(s.blocks)
}

/// What construction from `s` on leaves alone: the blocks before it other than the one being
/// filled, and the edges into them; the block being filled is `s`'s or a new one.
pub open spec fn frame(s: BuildState, t: BuildState) -> bool {
    &&& s.blocks.len() <= t.blocks.len()
    &&& (t.current == s.current || s.blocks.len() <= t.current < t.blocks.len())
    &&& forall|i: int| 0 <= i < s.blocks.len() && i != s.current ==> #[trigger] t.blocks[i] == s.blocks[i]
    &&& forall|p: int, x: int|
        0 <= p < t.blocks.len() && 0 <= x < s.blocks.len() && #[trigger] targets(t.blocks[p], x) ==> p
            < s.blocks.len() && targets(s.blocks[p], x)
}

pub(crate) proof fn lemma_frame_trans(s: BuildState, u: BuildState, t: BuildState)
    requires
        frame(s, u),
        frame(u, t),
    ensures
        frame(s, t),
{
    assert forall|i: int| 0 <= i < s.blocks.len() && i != s.current implies #[trigger] t.blocks[i] == s.blocks[i] by {
        assert(u.blocks[i] == s.blocks[i]);
        assert(t.blocks[i] == u.blocks[i]);
    }
    assert forall|p: int, x: int|
        0 <= p < t.blocks.len() && 0 <= x < s.blocks.len() && #[trigger] targets(t.blocks[p], x) implies p
            < s.blocks.len() && targets(s.blocks[p], x) by {
        assert(targets(u.blocks[p], x));
    }
}

/// Two block sequences with the same terminators.
pub open spec fn same_terminators(a: Seq<SpecBlock>, b: Seq<SpecBlock>) -> bool {
    &&& a.len() == b.len()
    &&& forall|i: int| 0 <= i < a.len() ==> (#[trigger] a[i]).terminator == b[i].terminator
}

pub(crate) proof fn lemma_same_terminators_sound(a: Seq<SpecBlock>, b: Seq<SpecBlock>, m: int, x: int, y: int)
    requires
        same_terminators(a, b),
    ensures
        sole_jumps(a, m, x, y) == sole_jumps(b, m, x, y),
{
    assert forall|p: int| 0 <= p < a.len() implies targets(a[p], m) == targets(b[p], m) by {
        assert(a[p].terminator == b[p].terminator);
    }
    if sole_jumps(a, m, x, y) {
        assert forall|p: int| 0 <= p < b.len() && #[trigger] targets(b[p], m) implies p == x || p == y by {
            assert(targets(a[p], m));
        }
    }
    if sole_jumps(b, m, x, y) {
        assert forall|p: int| 0 <= p < a.len() && #[trigger] targets(a[p], m) implies p == x || p == y by {
            assert(targets(b[p], m));
        }
    }
}

/// Adding an instruction to the block being filled: a phi must be sound there.
pub(crate) proof fn lemma_instruction_step(s0: BuildState, s: BuildState, instruction: SpecInstruction)
    requires
        frame(s0, s),
        build_inv(s),
        instruction is Phi ==> phi_sound(s.blocks, s.current, instruction->Phi_incomings),
    ensures
        build_inv(with_instruction(s, instruction)),
        frame(s0, with_instruction(s, instruction)),
        same_terminators(s.blocks, with_instruction(s, instruction).blocks),
        with_instruction(s, instruction).current == s.current,
{
    let t = with_instruction(s, instruction);
    assert(same_terminators(s.blocks, t.blocks));
    assert forall|i: int| 0 <= i < t.blocks.len() implies #[trigger] t.blocks[i].id == i as BlockId by {
        assert(s.blocks[i].id == i as BlockId);
    }
    assert forall|p: int, x: BlockId|
        0 <= p < t.blocks.len() && #[trigger] terminator_targets(t.blocks[p].terminator).contains(x) implies (x as int)
            < t.blocks.len() by {
        assert(terminator_targets(s.blocks[p].terminator).contains(x));
    }
    assert forall|m: int, k: int|
        0 <= m < t.blocks.len() && 0 <= k < t.blocks[m].instructions.len() && t.blocks[m].instructions[k] is Phi
            implies phi_sound(t.blocks, m, #[trigger] t.blocks[m].instructions[k]->Phi_incomings) by {
        let inc = t.blocks[m].instructions[k]->Phi_incomings;
        if m == s.current && k == s.blocks[m].instructions.len() {
            assert(t.blocks[m].instructions[k] == instruction);
        } else {
            assert(t.blocks[m].instructions[k] == s.blocks[m].instructions[k]);
        }
        lemma_same_terminators_sound(s.blocks, t.blocks, m, inc[0].0 as int, inc[1].0 as int);
    }
    assert forall|i: int| 0 <= i < s0.blocks.len() && i != s0.current implies #[trigger] t.blocks[i] == s0.blocks[i] by {
        assert(s.blocks[i] == s0.blocks[i]);
    }
    assert forall|p: int, x: int|
        0 <= p < t.blocks.len() && 0 <= x < s0.blocks.len() && #[trigger] targets(t.blocks[p], x) implies p
            < s0.blocks.len() && targets(s0.blocks[p], x) by {
        assert(targets(s.blocks[p], x));
    }
}


/// Adding an empty block.
pub(crate) proof fn lemma_new_block_step(s0: BuildState, s: BuildState)
    requires
        frame(s0, s),
        build_inv(s),
        s.blocks.len() + 1 <= u32::MAX + 1,
    ensures
        build_inv(with_new_block(s)),
        frame(s0, with_new_block(s)),
        with_new_block(s).current == s.current,
        with_new_block(s).blocks.len() == s.blocks.len() + 1,
        with_new_block(s).blocks[s.blocks.len() as int].instructions.len() == 0,
        with_new_block(s).blocks[s.blocks.len() as int].terminator is None,
        forall|i: int| 0 <= i < s.blocks.len() ==> #[trigger] with_new_block(s).blocks[i] == s.blocks[i],
{
    let t = with_new_block(s);
    let n = s.blocks.len() as int;
    assert forall|i: int| 0 <= i < t.blocks.len() implies #[trigger] t.blocks[i].id == i as BlockId by {
        if i < n {
            assert(s.blocks[i].id == i as BlockId);
        }
    }
    assert forall|p: int, x: BlockId|
        0 <= p < t.blocks.len() && #[trigger] terminator_targets(t.blocks[p].terminator).contains(x) implies (x as int)
            < t.blocks.len() by {
        if p < n {
            assert(terminator_targets(s.blocks[p].terminator).contains(x));
        } else {
            assert(terminator_targets(t.blocks[p].terminator) =~= Seq::<BlockId>::empty());
        }
    }
    assert forall|m: int, k: int|
        0 <= m < t.blocks.len() && 0 <= k < t.blocks[m].instructions.len() && t.blocks[m].instructions[k] is Phi
            implies phi_sound(t.blocks, m, #[trigger] t.blocks[m].instructions[k]->Phi_incomings) by {
        let inc = t.blocks[m].instructions[k]->Phi_incomings;
        assert(m < n);
        assert(t.blocks[m] == s.blocks[m]);
        assert(phi_sound(s.blocks, m, inc));
        assert forall|p: int| 0 <= p < t.blocks.len() && #[trigger] targets(t.blocks[p], m) implies p == inc[0].0 as int
            || p == inc[1].0 as int by {
            if p < n {
                assert(targets(s.blocks[p], m));
            } else {
                assert(terminator_targets(t.blocks[p].terminator) =~= Seq::<BlockId>::empty());
            }
        }
    }
    assert forall|p: int, x: int|
        0 <= p < t.blocks.len() && 0 <= x < s0.blocks.len() && #[trigger] targets(t.blocks[p], x) implies p
            < s0.blocks.len() && targets(s0.blocks[p], x) by {
        if p < n {
            assert(targets(s.blocks[p], x));
        } else {
            assert(terminator_targets(t.blocks[p].terminator) =~= Seq::<BlockId>::empty());
        }
    }
    assert forall|i: int| 0 <= i < s0.blocks.len() && i != s0.current implies #[trigger] t.blocks[i] == s0.blocks[i] by {
        assert(s.blocks[i] == s0.blocks[i]);
    }
}

/// Ending the block being filled with a terminator whose targets are blocks added after `s0`
/// that hold no phi.
pub(crate) proof fn lemma_terminator_step(s0: BuildState, s: BuildState, terminator: Terminator)
    requires
        frame(s0, s),
        build_inv(s),
        s.blocks[s.current].terminator is None,
        forall|x: BlockId| #[trigger] terminator_targets(Some(terminator)).contains(x) ==> s0.blocks.len() <= x
            < s.blocks.len() && phi_free(s.blocks[x as int]),
    ensures
        build_inv(with_terminator(s, s.current, terminator)),
        frame(s0, with_terminator(s, s.current, terminator)),
        with_terminator(s, s.current, terminator).current == s.current,
        with_terminator(s, s.current, terminator).blocks.len() == s.blocks.len(),
        forall|i: int| 0 <= i < s.blocks.len() && i != s.current ==> #[trigger] with_terminator(s, s.current, terminator).blocks[i] == s.blocks[i],
        with_terminator(s, s.current, terminator).blocks[s.current].terminator == Some(terminator),
        with_terminator(s, s.current, terminator).blocks[s.current].instructions == s.blocks[s.current].instructions,
{
    let t = with_terminator(s, s.current, terminator);
    let c = s.current;
    assert forall|i: int| 0 <= i < t.blocks.len() implies #[trigger] t.blocks[i].id == i as BlockId by {
        assert(s.blocks[i].id == i as BlockId);
    }
    assert(terminator_targets(s.blocks[c].terminator) =~= Seq::<BlockId>::empty());
    assert forall|p: int, x: BlockId|
        0 <= p < t.blocks.len() && #[trigger] terminator_targets(t.blocks[p].terminator).contains(x) implies (x as int)
            < t.blocks.len() by {
        if p != c {
            assert(terminator_targets(s.blocks[p].terminator).contains(x));
        }
    }
    assert forall|m: int, k: int|
        0 <= m < t.blocks.len() && 0 <= k < t.blocks[m].instructions.len() && t.blocks[m].instructions[k] is Phi
            implies phi_sound(t.blocks, m, #[trigger] t.blocks[m].instructions[k]->Phi_incomings) by {
        let inc = t.blocks[m].instructions[k]->Phi_incomings;
        assert(t.blocks[m].instructions[k] == s.blocks[m].instructions[k]);
        assert(phi_sound(s.blocks, m, inc));
        let a = inc[0].0 as int;
        let b = inc[1].0 as int;
        assert(a != c && b != c);
        if targets(t.blocks[c], m) {
            let x = m as BlockId;
            assert(terminator_targets(Some(terminator)).contains(x));
            assert(phi_free(s.blocks[x as int]));
            assert(false);
        }
        assert forall|p: int| 0 <= p < t.blocks.len() && #[trigger] targets(t.blocks[p], m) implies p == a || p == b by {
            if p != c {
                assert(targets(s.blocks[p], m));
            }
        }
    }
    assert forall|p: int, x: int|
        0 <= p < t.blocks.len() && 0 <= x < s0.blocks.len() && #[trigger] targets(t.blocks[p], x) implies p
            < s0.blocks.len() && targets(s0.blocks[p], x) by {
        if p == c {
            assert(terminator_targets(Some(terminator)).contains(x as BlockId));
            assert(false);
        } else {
            assert(targets(s.blocks[p], x));
        }
    }
    assert forall|i: int| 0 <= i < s0.blocks.len() && i != s0.current implies #[trigger] t.blocks[i] == s0.blocks[i] by {
        assert(s.blocks[i] == s0.blocks[i]);
    }
}


/// Lowering an expression only adds instructions that are not phis to the block being filled.
pub(crate) proof fn lemma_expr_step(s0: BuildState, s: BuildState, expr: TypedExpr)
    requires
        frame(s0, s),
        build_inv(s),
    ensures
        build_inv(build_expr_spec(s, expr).0),
        frame(s0, build_expr_spec(s, expr).0),
        build_expr_spec(s, expr).0.current == s.current,
        build_expr_spec(s, expr).0.definitions == s.definitions,
        same_terminators(s.blocks, build_expr_spec(s, expr).0.blocks),
        forall|i: int| 0 <= i < s.blocks.len() && i != s.current ==> #[trigger] build_expr_spec(s, expr).0.blocks[i] == s.blocks[i],
    decreases expr,
{
    if let TypedExpr::Binary { left, op, right, .. } = expr {
        lemma_expr_step(s0, s, *left);
        let (s1, l) = build_expr_spec(s, *left);
        lemma_expr_step(s0, s1, *right);
        let (s2, r) = build_expr_spec(s1, *right);
        let s3 = with_next_value(s2, s2.next_value + 1);
        let instruction = SpecInstruction::Binary { result: s2.next_value as ValueId, op, left: l, right: r };
        lemma_instruction_step(s0, s3, instruction);
        let t = with_instruction(s3, instruction);
        assert(t == build_expr_spec(s, expr).0);
        assert forall|i: int| 0 <= i < s.blocks.len() implies (#[trigger] s.blocks[i]).terminator == t.blocks[i].terminator by {
            assert(s1.blocks[i].terminator == s.blocks[i].terminator);
            assert(s2.blocks[i].terminator == s1.blocks[i].terminator);
        }
        assert forall|i: int| 0 <= i < s.blocks.len() && i != s.current implies #[trigger] t.blocks[i] == s.blocks[i] by {
            assert(s1.blocks[i] == s.blocks[i]);
            assert(s2.blocks[i] == s1.blocks[i]);
        }
    }
}


proof fn lemma_merge_step(
    s0: BuildState,
    s: BuildState,
    symbol: SymbolId,
    fallback: Operand,
    then_definitions: Seq<(SymbolId, Operand)>,
    else_definitions: Seq<(SymbolId, Operand)>,
    then_end: int,
    else_end: int,
    then_live: bool,
    else_live: bool,
)
    requires
        frame(s0, s),
        build_inv(s),
        then_live && else_live ==> sole_jumps(s.blocks, s.current, then_end, else_end),
    ensures
        ({
            let t = merge_step(
                s,
                symbol,
                fallback,
                then_definitions,
                else_definitions,
                then_end,
                else_end,
                then_live,
                else_live,
            );
            &&& build_inv(t)
            &&& frame(s0, t)
            &&& t.current == s.current
            &&& same_terminators(s.blocks, t.blocks)
            &&& forall|i: int| 0 <= i < s.blocks.len() && i != s.current ==> #[trigger] t.blocks[i] == s.blocks[i]
        }),
{
    let t = branch_operand(then_definitions, symbol);
    let e = branch_operand(else_definitions, symbol);
    if then_live && else_live && t != e {
        let s1 = with_next_value(s, s.next_value + 1);
        let incomings = seq![(then_end as BlockId, t), (else_end as BlockId, e)];
        let instruction = SpecInstruction::Phi {
            result: s.next_value as ValueId,
            symbol_id: symbol,
            incomings,
        };
        assert(incomings[0].0 as int == then_end && incomings[1].0 as int == else_end);
        lemma_instruction_step(s0, s1, instruction);
        let s2 = with_instruction(s1, instruction);
        assert forall|i: int| 0 <= i < s.blocks.len() && i != s.current implies #[trigger] s2.blocks[i] == s.blocks[i] by {}
    } else {
        assert(same_terminators(s.blocks, s.blocks));
    }
}

proof fn lemma_merge(
    s0: BuildState,
    s: BuildState,
    outer: Seq<(SymbolId, Operand)>,
    k: int,
    then_definitions: Seq<(SymbolId, Operand)>,
    else_definitions: Seq<(SymbolId, Operand)>,
    then_end: int,
    else_end: int,
    then_live: bool,
    else_live: bool,
)
    requires
        frame(s0, s),
        build_inv(s),
        then_live && else_live ==> sole_jumps(s.blocks, s.current, then_end, else_end),
    ensures
        ({
            let t = merge_spec(
                s,
                outer,
                k,
                then_definitions,
                else_definitions,
                then_end,
                else_end,
                then_live,
                else_live,
            );
            &&& build_inv(t)
            &&& frame(s0, t)
            &&& t.current == s.current
            &&& same_terminators(s.blocks, t.blocks)
            &&& forall|i: int| 0 <= i < s.blocks.len() && i != s.current ==> #[trigger] t.blocks[i] == s.blocks[i]
        }),
    decreases outer.len() - k,
{
    if 0 <= k < outer.len() {
        lemma_merge_step(
            s0,
            s,
            outer[k].0,
            outer[k].1,
            then_definitions,
            else_definitions,
            then_end,
            else_end,
            then_live,
            else_live,
        );
        let next = merge_step(
            s,
            outer[k].0,
            outer[k].1,
            then_definitions,
            else_definitions,
            then_end,
            else_end,
            then_live,
            else_live,
        );
        if then_live && else_live {
            lemma_same_terminators_sound(s.blocks, next.blocks, s.current, then_end, else_end);
        }
        lemma_merge(
            s0,
            next,
            outer,
            k + 1,
            then_definitions,
            else_definitions,
            then_end,
            else_end,
            then_live,
            else_live,
        );
        let t = merge_spec(
            next,
            outer,
            k + 1,
            then_definitions,
            else_definitions,
            then_end,
            else_end,
            then_live,
            else_live,
        );
        assert forall|i: int| 0 <= i < s.blocks.len() implies (#[trigger] s.blocks[i]).terminator == t.blocks[i].terminator by {
            assert(next.blocks[i].terminator == s.blocks[i].terminator);
        }
        assert forall|i: int| 0 <= i < s.blocks.len() && i != s.current implies #[trigger] t.blocks[i] == s.blocks[i] by {
            assert(next.blocks[i] == s.blocks[i]);
        }
    } else {
        assert(same_terminators(s.blocks, s.blocks));
    }
}


/// How the ranks grow from `s` to `t`: the state reached is ranked, ranks given stay, blocks of
/// `s` without a rank stay without one, every block added gets one, and one rank is used per
/// block added.
pub open spec fn rank_grows(s: BuildState, t: BuildState, rk: (Map<int, nat>, nat), r: (Map<int, nat>, nat)) -> bool {
    &&& ranked(t, r)
    &&& forall|b: int| #[trigger] rk.0.contains_key(b) ==> r.0.contains_key(b) && r.0[b] == rk.0[b]
    &&& forall|b: int| 0 <= b < s.blocks.len() && !rk.0.contains_key(b) ==> !#[trigger] r.0.contains_key(b)
    &&& forall|b: int| s.blocks.len() <= b < t.blocks.len() ==> #[trigger] r.0.contains_key(b)
    &&& r.1 == rk.1 + (t.blocks.len() - s.blocks.len())
}

proof fn lemma_rank_grows_trans(
    s: BuildState,
    u: BuildState,
    t: BuildState,
    rk: (Map<int, nat>, nat),
    r1: (Map<int, nat>, nat),
    r2: (Map<int, nat>, nat),
)
    requires
        rank_grows(s, u, rk, r1),
        rank_grows(u, t, r1, r2),
        s.blocks.len() <= u.blocks.len(),
    ensures
        rank_grows(s, t, rk, r2),
{
    assert forall|b: int| s.blocks.len() <= b < t.blocks.len() implies #[trigger] r2.0.contains_key(b) by {
        if b < u.blocks.len() {
            assert(r1.0.contains_key(b));
        }
    }
    assert forall|b: int| 0 <= b < s.blocks.len() && !rk.0.contains_key(b) implies !#[trigger] r2.0.contains_key(b) by {
        assert(!r1.0.contains_key(b));
    }
}

pub(crate) proof fn lemma_statements_inv(s: BuildState, statements: Seq<SpecTypedStatement>, rk: (Map<int, nat>, nat))
    requires
        build_inv(s),
        build_statements_spec(s, statements).blocks.len() <= u32::MAX + 1,
        ranked(s, rk),
    ensures
        build_inv(build_statements_spec(s, statements)),
        frame(s, build_statements_spec(s, statements)),
        rank_grows(s, build_statements_spec(s, statements), rk, rank_statements(s, statements, rk)),
        ends_closed(s, build_statements_spec(s, statements), typed_block_returns(statements)),
    decreases statements, 2nat,
{
    if statements.len() == 0 || !(0 <= s.current < s.blocks.len()) || s.blocks[s.current].terminator is Some {
        assert(frame(s, s));
    } else {
        let rest = statements.subrange(1, statements.len() as int);
        lemma_build_statement_grows(s, statements[0]);
        let after = build_statement_spec(s, statements[0]);
        lemma_build_statements_grows(after, rest);
        lemma_statement_inv(s, statements[0], rk);
        let r1 = rank_statement(s, statements[0], rk);
        lemma_statements_inv(after, rest, r1);
        lemma_frame_trans(s, after, build_statements_spec(after, rest));
        lemma_rank_grows_trans(s, after, build_statements_spec(after, rest), rk, r1, rank_statements(after, rest, r1));
        lemma_statements_closed(s, statements, after, build_statements_spec(after, rest));
    }
}

/// The blocks a block of statements leaves without a terminator, from those its first
/// statement and the rest leave.
proof fn lemma_statements_closed(
    s: BuildState,
    statements: Seq<SpecTypedStatement>,
    after: BuildState,
    t: BuildState,
)
    requires
        statements.len() > 0,
        after == build_statement_spec(s, statements[0]),
        t == build_statements_spec(after, statements.subrange(1, statements.len() as int)),
        build_inv(s),
        build_inv(after),
        build_inv(t),
        frame(s, after),
        frame(after, t),
        ends_closed(s, after, typed_statement_returns(statements[0])),
        ends_closed(after, t, typed_block_returns(statements.subrange(1, statements.len() as int))),
    ensures
        ends_closed(s, t, typed_block_returns(statements)),
{
    let rest = statements.subrange(1, statements.len() as int);
    assert forall|b: int| s.blocks.len() <= b < t.blocks.len() && b != t.current implies (
    #[trigger] t.blocks[b]).terminator is Some by {
        if b < after.blocks.len() {
            if b != after.current {
                assert(after.blocks[b].terminator is Some);
                assert(t.blocks[b] == after.blocks[b]);
            }
        }
    }
    if t.current != s.current {
        if after.current != s.current {
            assert(t.blocks[s.current] == after.blocks[s.current]);
        }
    }
    if typed_block_returns(statements) && t.blocks[t.current].terminator is None {
        if typed_statement_returns(statements[0]) {
            if after.blocks[after.current].terminator is Some {
                assert(t == after);
            } else {
                if after.current == s.current {
                    lemma_walk_to_self(after.blocks, s.current);
                }
                lemma_no_walk_into_later(after, t, s.current);
            }
        } else {
            assert(typed_block_returns(rest));
            if after.current != s.current {
                if after.blocks[after.current].terminator is Some {
                    assert(t == after);
                }
                lemma_no_walk_through(after, t, s.current);
            }
        }
    }
}

pub(crate) proof fn lemma_statement_inv(s: BuildState, statement: SpecTypedStatement, rk: (Map<int, nat>, nat))
    requires
        build_inv(s),
        s.blocks[s.current].terminator is None,
        build_statement_spec(s, statement).blocks.len() <= u32::MAX + 1,
        ranked(s, rk),
    ensures
        build_inv(build_statement_spec(s, statement)),
        frame(s, build_statement_spec(s, statement)),
        rank_grows(s, build_statement_spec(s, statement), rk, rank_statement(s, statement, rk)),
        ends_closed(s, build_statement_spec(s, statement), typed_statement_returns(statement)),
    decreases statement, 1nat,
{
    assert(frame(s, s));
    match statement {
        SpecTypedStatement::Let { symbol, value } => {
            lemma_expr_step(s, s, value);
            let (s1, op) = build_expr_spec(s, value);
            let bind = SpecInstruction::Bind { symbol_id: symbol.spec_id(), value: op };
            lemma_instruction_step(s, s1, bind);
            lemma_ranked_same_terminators(s, s1, rk);
            lemma_ranked_same_terminators(s1, with_instruction(s1, bind), rk);
        },
        SpecTypedStatement::Assign { symbol, value } => {
            lemma_expr_step(s, s, value);
            let (s1, op) = build_expr_spec(s, value);
            let bind = SpecInstruction::Bind { symbol_id: symbol.spec_id(), value: op };
            lemma_instruction_step(s, s1, bind);
            lemma_ranked_same_terminators(s, s1, rk);
            lemma_ranked_same_terminators(s1, with_instruction(s1, bind), rk);
        },
        SpecTypedStatement::Return { value } => {
            lemma_expr_step(s, s, value);
            let (s1, op) = build_expr_spec(s, value);
            assert(s1.blocks[s1.current].terminator == s.blocks[s.current].terminator);
            assert(terminator_targets(Some(Terminator::Return(op))) =~= Seq::<BlockId>::empty());
            lemma_terminator_step(s, s1, Terminator::Return(op));
            lemma_ranked_same_terminators(s, s1, rk);
            lemma_rank_terminator(s1, rk, Terminator::Return(op));
        },
        SpecTypedStatement::If { condition, then_branch, else_branch } => {
            lemma_if_statement_inv(s, statement, rk);
        },
    }
}

pub(crate) proof fn lemma_if_statement_inv(s: BuildState, statement: SpecTypedStatement, rk: (Map<int, nat>, nat))
    requires
        statement is If,
        build_inv(s),
        s.blocks[s.current].terminator is None,
        build_statement_spec(s, statement).blocks.len() <= u32::MAX + 1,
        ranked(s, rk),
    ensures
        build_inv(build_statement_spec(s, statement)),
        frame(s, build_statement_spec(s, statement)),
        rank_grows(s, build_statement_spec(s, statement), rk, rank_statement(s, statement, rk)),
        ends_closed(s, build_statement_spec(s, statement), typed_statement_returns(statement)),
    decreases statement, 0nat,
{
    let condition = statement->condition;
    let then_branch = statement->then_branch;
    let else_branch = statement->else_branch;
    let (h, s4, s5, s6, s7) = if_states(s, statement);
    lemma_if_chain(s, statement);
    assert(frame(s, s));
    lemma_expr_step(s, s, condition);
    let (s1, c) = build_expr_spec(s, condition);
    let n = s1.blocks.len() as int;
    let start_then = with_current(h, n);
    let start_else = with_definitions(with_current(s5, n + 1), h.definitions);
    let start_merge = with_definitions(with_current(s7, n + 2), Seq::empty());
    let t = build_statement_spec(s, statement);
    assert(h.blocks.len() <= s4.blocks.len() <= s5.blocks.len() <= s6.blocks.len() <= s7.blocks.len()
        <= t.blocks.len());
    lemma_new_block_step(s, s1);
    let a1 = with_new_block(s1);
    lemma_new_block_step(s, a1);
    let a2 = with_new_block(a1);
    lemma_new_block_step(s, a2);
    let s2 = with_new_block(a2);
    let branch = Terminator::Branch { condition: c, then_block: n as BlockId, else_block: (n + 1) as BlockId };
    assert(s2.blocks[n] == a1.blocks[n]);
    assert(s2.blocks[n + 1] == a2.blocks[n + 1]);
    assert forall|x: BlockId| #[trigger] terminator_targets(Some(branch)).contains(x) implies s.blocks.len() <= x
        < s2.blocks.len() && phi_free(s2.blocks[x as int]) by {
        let ts = terminator_targets(Some(branch));
        let j = choose|j: int| 0 <= j < ts.len() && ts[j] == x;
        assert(j == 0 || j == 1);
    }
    assert(s2.blocks[s2.current] == s1.blocks[s1.current]);
    lemma_terminator_step(s, s2, branch);
    assert(h == with_terminator(s2, s2.current, branch));
    lemma_ranked_same_terminators(s, s1, rk);
    lemma_rank_new_block(s1, rk);
    lemma_rank_new_block(a1, rk);
    lemma_rank_new_block(a2, rk);
    assert forall|x: BlockId| #[trigger] terminator_targets(Some(branch)).contains(x) implies !rk.0.contains_key(
        x as int,
    ) by {
        let ts = terminator_targets(Some(branch));
        let j = choose|j: int| 0 <= j < ts.len() && ts[j] == x;
        assert(j == 0 || j == 1);
    }
    lemma_rank_terminator(s2, rk, branch);
    let rk1 = assign_rank(rk, n);
    lemma_rank_current(h, rk, n);
    // Nothing leads to the merge block yet.
    assert forall|p: int| 0 <= p < h.blocks.len() implies !#[trigger] targets(h.blocks[p], n + 2) by {
        if p == s.current {
            let ts = terminator_targets(Some(branch));
            if ts.contains((n + 2) as BlockId) {
                let j = choose|j: int| 0 <= j < ts.len() && ts[j] == (n + 2) as BlockId;
                assert(j == 0 || j == 1);
            }
        } else if p < n {
            assert(h.blocks[p] == s2.blocks[p]);
            assert(s2.blocks[p] == s1.blocks[p]);
            if targets(s1.blocks[p], n + 2) {
                assert(terminator_targets(s1.blocks[p].terminator).contains((n + 2) as BlockId));
            }
        } else {
            assert(h.blocks[p] == s2.blocks[p]);
            assert(terminator_targets(s2.blocks[p].terminator) =~= Seq::<BlockId>::empty());
        }
    }
    // The then branch.
    assert(frame(s, start_then));
    lemma_statements_inv(start_then, then_branch, rk1);
    let r1 = rank_statements(start_then, then_branch, rk1);
    lemma_frame_trans(s, start_then, s4);
    let merge = n + 2;
    assert(s4.blocks[merge] == h.blocks[merge]);
    assert(h.blocks[merge] == s2.blocks[merge]);
    let jump = Terminator::Jump(merge as BlockId);
    assert(terminator_targets(Some(jump)) =~= seq![merge as BlockId]);
    assert(!r1.0.contains_key(merge) && !r1.0.contains_key(n + 1));
    if branch_live(s4) {
        lemma_terminator_step(s, s4, jump);
        lemma_rank_terminator(s4, r1, jump);
    }
    assert(s5.blocks[merge] == s4.blocks[merge]);
    // The else branch.
    let rk2 = assign_rank(r1, n + 1);
    lemma_rank_current(s5, r1, n + 1);
    assert(frame(s, start_else));
    lemma_statements_inv(start_else, else_branch, rk2);
    let r2 = rank_statements(start_else, else_branch, rk2);
    lemma_frame_trans(s, start_else, s6);
    assert(s6.blocks[merge] == s5.blocks[merge]);
    assert(!r2.0.contains_key(merge));
    if branch_live(s6) {
        lemma_terminator_step(s, s6, jump);
        lemma_rank_terminator(s6, r2, jump);
    }
    let r3 = assign_rank(r2, merge);
    lemma_rank_current(s7, r2, merge);
    assert(r3 == rank_statement(s, statement, rk));
    // The merge.
    assert(frame(s, start_merge));
    let a = s4.current;
    let e = s6.current;
    if branch_live(s4) && branch_live(s6) {
        assert(s6.blocks[a] == s5.blocks[a]);
        assert(s7.blocks[a] == s6.blocks[a]);
        assert forall|p: int| 0 <= p < s7.blocks.len() && #[trigger] targets(s7.blocks[p], merge) implies p == a
            || p == e by {
            if p != e && p != a {
                assert(s7.blocks[p] == s6.blocks[p]);
                assert(targets(s5.blocks[p], merge));
                assert(s5.blocks[p] == s4.blocks[p]);
                assert(targets(h.blocks[p], merge));
            }
        }
        assert(sole_jumps(start_merge.blocks, merge, a, e));
    }
    lemma_merge(
        s,
        start_merge,
        h.definitions,
        0,
        s5.definitions,
        s7.definitions,
        a,
        e,
        branch_live(s4),
        branch_live(s6),
    );
    lemma_ranked_same_terminators(start_merge, t, r3);
    assert(s5.blocks.len() == s4.blocks.len());
    assert(s7.blocks.len() == s6.blocks.len());
    assert forall|b: int| s.blocks.len() <= b < t.blocks.len() implies #[trigger] r3.0.contains_key(b) by {
        if b == n + 2 {
        } else if b == n {
            assert(rk1.0.contains_key(b));
            assert(r1.0.contains_key(b));
            assert(rk2.0.contains_key(b));
            assert(r2.0.contains_key(b));
        } else if b == n + 1 {
            assert(rk2.0.contains_key(b));
            assert(r2.0.contains_key(b));
        } else if b < s4.blocks.len() {
            assert(h.blocks.len() <= b);
            assert(r1.0.contains_key(b));
            assert(rk2.0.contains_key(b));
            assert(r2.0.contains_key(b));
        } else {
            assert(r2.0.contains_key(b));
        }
    }
    assert forall|b: int| #[trigger] rk.0.contains_key(b) implies r3.0.contains_key(b) && r3.0[b] == rk.0[b] by {
        assert(b < n);
        assert(rk1.0.contains_key(b) && rk1.0[b] == rk.0[b]);
        assert(r1.0.contains_key(b) && r1.0[b] == rk.0[b]);
        assert(rk2.0.contains_key(b) && rk2.0[b] == rk.0[b]);
        assert(r2.0.contains_key(b) && r2.0[b] == rk.0[b]);
    }
    assert forall|b: int| 0 <= b < s.blocks.len() && !rk.0.contains_key(b) implies !#[trigger] r3.0.contains_key(b) by {
        assert(!rk1.0.contains_key(b));
        assert(!r1.0.contains_key(b));
        assert(!rk2.0.contains_key(b));
        assert(!r2.0.contains_key(b));
    }
    assert(s1.blocks.len() == s.blocks.len());
    assert(r3.1 == rk.1 + (t.blocks.len() - s.blocks.len()));
    // What stays without a terminator.
    let live4 = branch_live(s4);
    let live6 = branch_live(s6);
    assert(same_terminators(s7.blocks, t.blocks));
    assert(a == n || (h.blocks.len() <= a < s4.blocks.len()));
    assert(e == n + 1 || (s5.blocks.len() <= e < s6.blocks.len()));
    assert forall|q: int| 0 <= q < s5.blocks.len() && q != n + 1 && q != e implies #[trigger] t.blocks[q].terminator
        == s5.blocks[q].terminator by {
        assert(s6.blocks[q] == s5.blocks[q]);
        assert(s7.blocks[q] == s6.blocks[q]);
        assert(t.blocks[q].terminator == s7.blocks[q].terminator);
    }
    assert forall|q: int| 0 <= q < s4.blocks.len() && q != a implies #[trigger] s5.blocks[q] == s4.blocks[q] by {}
    assert forall|b: int| s.blocks.len() <= b < t.blocks.len() && b != t.current implies (
    #[trigger] t.blocks[b]).terminator is Some by {
        assert(t.current == merge);
        if b < s4.blocks.len() && b != n + 1 {
            if b != a {
                assert(s4.blocks[b].terminator is Some);
            }
            assert(s5.blocks[b].terminator is Some);
            assert(t.blocks[b].terminator == s5.blocks[b].terminator);
        } else {
            if b != e {
                assert(s6.blocks[b].terminator is Some);
                assert(s7.blocks[b] == s6.blocks[b]);
            }
            assert(s7.blocks[b].terminator is Some);
            assert(t.blocks[b].terminator == s7.blocks[b].terminator);
        }
    }
    assert(s4.blocks[s.current] == h.blocks[s.current]);
    assert(t.blocks[s.current].terminator == Some(branch)) by {
        assert(t.blocks[s.current].terminator == s5.blocks[s.current].terminator);
    }
    if typed_statement_returns(statement) {
        let then_region = Set::new(|q: int| q == n || (h.blocks.len() <= q < s4.blocks.len()));
        let else_region = Set::new(|q: int| q == n + 1 || (s5.blocks.len() <= q < s6.blocks.len()));
        let len = t.blocks.len();
        assert forall|y: int| 0 <= y < len && #[trigger] targets(t.blocks[s.current], y) implies y == n || y == n
            + 1 by {
            let ts = terminator_targets(Some(branch));
            let k = choose|k: int| 0 <= k < ts.len() && ts[k] == y as BlockId;
            assert(k == 0 || k == 1);
        }
        assert forall|q: int, y: int|
            then_region.contains(q) && 0 <= y < len && #[trigger] targets(s4.blocks[q], y) implies then_region.contains(
            y,
        ) by {
            assert(terminator_targets(s4.blocks[q].terminator).contains(y as BlockId));
            assert(y < s4.blocks.len());
            if y < h.blocks.len() {
                assert(targets(h.blocks[q], y));
                assert(q == n);
                assert(h.blocks[n] == s2.blocks[n]);
            }
        }
        assert forall|q: int, y: int|
            else_region.contains(q) && 0 <= y < len && #[trigger] targets(s6.blocks[q], y) implies else_region.contains(
            y,
        ) by {
            assert(terminator_targets(s6.blocks[q].terminator).contains(y as BlockId));
            assert(y < s6.blocks.len());
            if y < s5.blocks.len() {
                assert(targets(s5.blocks[q], y));
                assert(q == n + 1);
                assert(s5.blocks[n + 1] == s4.blocks[n + 1]);
                assert(s4.blocks[n + 1] == h.blocks[n + 1]);
                assert(h.blocks[n + 1] == s2.blocks[n + 1]);
            }
        }
        assert forall|q: int| #[trigger] then_region.contains(q) && (q != a || !live4) implies t.blocks[q].terminator
            == s4.blocks[q].terminator by {
            assert(t.blocks[q].terminator == s5.blocks[q].terminator);
        }
        assert forall|q: int| #[trigger] else_region.contains(q) && (q != e || !live6) implies t.blocks[q].terminator
            == s6.blocks[q].terminator by {
            if q != e {
                assert(s7.blocks[q] == s6.blocks[q]);
            }
            assert(t.blocks[q].terminator == s7.blocks[q].terminator);
        }
        if live4 {
            assert(t.blocks[a].terminator == Some(jump)) by {
                assert(t.blocks[a].terminator == s5.blocks[a].terminator);
            }
            assert forall|y: int| 0 <= y < len && #[trigger] targets(t.blocks[a], y) implies y == merge by {}
        }
        if live6 {
            assert(t.blocks[e].terminator == Some(jump)) by {
                assert(t.blocks[e].terminator == s7.blocks[e].terminator);
            }
            assert forall|y: int| 0 <= y < len && #[trigger] targets(t.blocks[e], y) implies y == merge by {}
        }
        lemma_if_merge_unreached(
            t.blocks,
            s.current,
            merge,
            then_region,
            n,
            s4.blocks,
            a,
            live4,
            else_region,
            n + 1,
            s6.blocks,
            e,
            live6,
        );
    }
}


/// The blocks control can reach, of the blocks a fresh builder makes of a block of statements.
pub open spec fn pruned_graph(statements: Seq<SpecTypedStatement>) -> SpecCfg {
    prune_spec(
        SpecCfg { entry: 0, blocks: build_statements_spec(initial_build_state(), statements).blocks },
    )
}

/// The graph a fresh builder makes of a block of statements: the blocks control can reach, each
/// phi keeping only its inputs from the blocks that jump to its block.
pub open spec fn built_graph(statements: Seq<SpecTypedStatement>) -> SpecCfg {
    simplify_spec(pruned_graph(statements))
}

/// Pruning blocks whose ids are their positions keeps each block whole, in order.
pub(crate) proof fn lemma_kept_blocks(blocks: Seq<SpecBlock>, keep: Set<BlockId>)
    requires
        blocks.len() <= u32::MAX + 1,
        forall|q: int| 0 <= q < blocks.len() ==> #[trigger] blocks[q].id == q as BlockId,
    ensures
        forall|j: int|
            0 <= j < keep_blocks(blocks, keep).len() ==> {
                let b = #[trigger] keep_blocks(blocks, keep)[j];
                &&& (b.id as int) < blocks.len()
                &&& b == blocks[b.id as int]
                &&& keep.contains(b.id)
            },
        forall|j1: int, j2: int|
            0 <= j1 < j2 < keep_blocks(blocks, keep).len() ==> #[trigger] keep_blocks(blocks, keep)[j1].id
                < #[trigger] keep_blocks(blocks, keep)[j2].id,
    decreases blocks.len(),
{
    if blocks.len() > 0 {
        let init = blocks.drop_last();
        assert forall|q: int| 0 <= q < init.len() implies #[trigger] init[q].id == q as BlockId by {
            assert(init[q] == blocks[q]);
        }
        lemma_kept_blocks(init, keep);
        let rest = keep_blocks(init, keep);
        let kept = keep_blocks(blocks, keep);
        assert forall|j: int| 0 <= j < rest.len() implies #[trigger] init[rest[j].id as int] == blocks[rest[j].id as int] by {}
        if keep.contains(blocks.last().id) {
            assert(kept == rest.push(blocks.last()));
            assert(blocks.last().id == (blocks.len() - 1) as BlockId);
            assert forall|j: int| 0 <= j < kept.len() implies {
                let b = #[trigger] kept[j];
                &&& (b.id as int) < blocks.len()
                &&& b == blocks[b.id as int]
                &&& keep.contains(b.id)
            } by {
                if j < rest.len() {
                    assert(kept[j] == rest[j]);
                }
            }
            assert forall|j1: int, j2: int| 0 <= j1 < j2 < kept.len() implies #[trigger] kept[j1].id < #[trigger] kept[j2].id by {
                assert(kept[j1] == rest[j1]);
                if j2 < rest.len() {
                    assert(kept[j2] == rest[j2]);
                }
            }
        } else {
            assert(kept == rest);
        }
    }
}

/// With distinct block ids, no block is listed twice among the predecessors.
proof fn lemma_predecessors_unique(g: SpecCfg, id: BlockId, from: int)
    requires
        0 <= from,
        forall|j1: int, j2: int|
            0 <= j1 < j2 < g.blocks.len() ==> #[trigger] g.blocks[j1].id != #[trigger] g.blocks[j2].id,
    ensures
        predecessors_from(g, id, from).no_duplicates(),
    decreases g.blocks.len() - from,
{
    if from < g.blocks.len() {
        lemma_predecessors_unique(g, id, from + 1);
        let rest = predecessors_from(g, id, from + 1);
        let x = g.blocks[from].id;
        if successors_spec(g, x).contains(id) {
            let all = seq![x] + rest;
            lemma_predecessors_from(g, id, from + 1, x);
            if rest.contains(x) {
                let j = choose|j: int| from + 1 <= j < g.blocks.len() && g.blocks[j].id == x && successors_spec(g, x).contains(id);
                assert(g.blocks[from].id != g.blocks[j].id);
            }
            assert forall|i: int, j: int| 0 <= i < all.len() && 0 <= j < all.len() && i != j implies all[i] != all[j] by {
                if i == 0 {
                    assert(all[j] == rest[j - 1]);
                } else if j == 0 {
                    assert(all[i] == rest[i - 1]);
                } else {
                    assert(all[i] == rest[i - 1] && all[j] == rest[j - 1]);
                }
            }
        }
    }
}

/// Two graphs whose blocks have the same ids and terminators, in the same order, have the same
/// predecessors.
proof fn lemma_same_shape_predecessors(a: SpecCfg, b: SpecCfg, id: BlockId, from: int)
    requires
        0 <= from,
        a.blocks.len() == b.blocks.len(),
        forall|j: int| 0 <= j < a.blocks.len() ==> (#[trigger] a.blocks[j]).id == b.blocks[j].id
            && a.blocks[j].terminator == b.blocks[j].terminator,
    ensures
        predecessors_from(a, id, from) == predecessors_from(b, id, from),
    decreases a.blocks.len() - from,
{
    if from < a.blocks.len() {
        lemma_same_shape_predecessors(a, b, id, from + 1);
        let x = a.blocks[from].id;
        assert(b.blocks[from].id == x);
        crate::cfg_opt_laws::lemma_find_block_same_ids(a.blocks, b.blocks, x, 0);
        lemma_find_block_from(a.blocks, x, 0);
        if let Some(j) = find_block(a.blocks, x) {
            assert(a.blocks[j].terminator == b.blocks[j].terminator);
        }
        assert(successors_spec(a, x) == successors_spec(b, x));
    }
}

/// The blocks that can transfer control to a phi's block in the graph a fresh builder makes
/// are exactly the blocks its incoming values come from, each listed once.
pub proof fn lemma_phi_incomings_are_predecessors(statements: Seq<SpecTypedStatement>, i: int, k: int)
    requires
        fits(build_statements_spec(initial_build_state(), statements)),
        0 <= i < built_graph(statements).blocks.len(),
        0 <= k < built_graph(statements).blocks[i].instructions.len(),
        built_graph(statements).blocks[i].instructions[k] is Phi,
    ensures
        ({
            let g = built_graph(statements);
            let incomings = g.blocks[i].instructions[k]->Phi_incomings;
            let predecessors = predecessors_spec(g, g.blocks[i].id);
            &&& incomings.len() == predecessors.len()
            &&& forall|x: BlockId|
                predecessors.contains(x) <==> exists|j: int|
                    0 <= j < incomings.len() && #[trigger] incomings[j].0 == x
        }),
{
    let init = initial_build_state();
    let last = build_statements_spec(init, statements);
    let blocks = last.blocks;
    let raw = SpecCfg { entry: 0, blocks };
    let p = pruned_graph(statements);
    let g = built_graph(statements);
    assert(init.blocks[0].id == 0);
    assert(terminator_targets(init.blocks[0].terminator) =~= Seq::<BlockId>::empty());
    assert(build_inv(init));
    let rk0: (Map<int, nat>, nat) = (map![0int => 0nat], 1nat);
    lemma_statements_inv(init, statements, rk0);
    lemma_kept_blocks(blocks, reachable_set(raw));
    let id = p.blocks[i].id;
    let m = id as int;
    assert(g.blocks[i] == simplify_block_spec(p, p.blocks[i]));
    let pinst = p.blocks[i].instructions[k];
    let preds = predecessors_spec(p, id);
    assert(g.blocks[i].instructions[k] == simplify_instruction_spec(pinst, preds));
    assert(p.blocks[i] == blocks[m]);
    assert(blocks[m].instructions[k] == pinst);
    let raw_incomings = pinst->Phi_incomings;
    assert(phi_sound(blocks, m, raw_incomings));
    let a = raw_incomings[0].0;
    let c = raw_incomings[1].0;
    assert(a != c);
    let incomings = live_incomings(raw_incomings, 2, preds);
    assert(g.blocks[i].instructions[k]->Phi_incomings == incomings);
    assert(m as BlockId == id);
    // The pruned graph's predecessors are the built graph's.
    assert forall|j: int| 0 <= j < p.blocks.len() implies (#[trigger] p.blocks[j]).id == g.blocks[j].id
        && p.blocks[j].terminator == g.blocks[j].terminator by {
        assert(g.blocks[j] == simplify_block_spec(p, p.blocks[j]));
    }
    lemma_same_shape_predecessors(p, g, id, 0);
    // Each block of the pruned graph is the block of the raw graph with its id.
    assert forall|x: BlockId| (exists|j: int| 0 <= j < p.blocks.len() && p.blocks[j].id == x) implies
        successors_spec(p, x) == terminator_targets(blocks[x as int].terminator) by {
        lemma_find_block_from(p.blocks, x, 0);
        let j = find_block(p.blocks, x).unwrap();
        assert(p.blocks[j] == blocks[p.blocks[j].id as int]);
    }
    assert forall|x: BlockId| preds.contains(x) ==> (x == a || x == c) by {
        lemma_predecessors_from(p, id, 0, x);
        if preds.contains(x) {
            let j = choose|j: int| 0 <= j < p.blocks.len() && p.blocks[j].id == x && successors_spec(p, x).contains(id);
            assert(p.blocks[j] == blocks[x as int]);
            assert(targets(blocks[x as int], m));
        }
    }
    assert forall|j1: int, j2: int| 0 <= j1 < j2 < p.blocks.len() implies #[trigger] p.blocks[j1].id != #[trigger] p.blocks[j2].id by {}
    lemma_predecessors_unique(p, id, 0);
    preds.unique_seq_to_set();
    reveal_with_fuel(live_incomings, 3);
    let pa = preds.contains(a);
    let pc = preds.contains(c);
    assert(raw_incomings[0] == (a, raw_incomings[0].1) && raw_incomings[1] == (c, raw_incomings[1].1));
    if pa && pc {
        assert(preds.to_set() =~= set![a, c]);
        assert(set![a, c].len() == 2) by {
            assert(set![a].len() == 1);
            assert(!set![a].contains(c));
        }
        assert(incomings == seq![raw_incomings[0], raw_incomings[1]]);
    } else if pa {
        assert(preds.to_set() =~= set![a]);
        assert(incomings == seq![raw_incomings[0]]);
    } else if pc {
        assert(preds.to_set() =~= set![c]);
        assert(incomings == seq![raw_incomings[1]]);
    } else {
        assert(preds.to_set() =~= Set::<BlockId>::empty());
        assert(incomings == Seq::<(BlockId, Operand)>::empty());
    }
    assert forall|x: BlockId| preds.contains(x) <==> exists|j: int|
        0 <= j < incomings.len() && #[trigger] incomings[j].0 == x by {
        if preds.contains(x) {
            if x == a {
                assert(incomings[0].0 == x);
            } else {
                assert(incomings[incomings.len() - 1].0 == x);
            }
        }
    }
}


/// The number of operations in an expression.
pub open spec fn expr_ops(expr: TypedExpr) -> nat
    decreases expr,
{
    match expr {
        TypedExpr::Binary { left, right, .. } => 1 + expr_ops(*left) + expr_ops(*right),
        _ => 0,
    }
}

/// The size of a block, nested blocks included: its operations, its `if` statements and its
/// bindings (`let` and assignment statements).
pub open spec fn block_size(statements: Seq<SpecTypedStatement>) -> (nat, nat, nat)
    decreases statements, 1nat,
{
    if statements.len() == 0 {
        (0, 0, 0)
    } else {
        let first = statement_size(statements[0]);
        let rest = block_size(statements.subrange(1, statements.len() as int));
        (first.0 + rest.0, first.1 + rest.1, first.2 + rest.2)
    }
}

pub open spec fn statement_size(statement: SpecTypedStatement) -> (nat, nat, nat)
    decreases statement, 0nat,
{
    match statement {
        SpecTypedStatement::Let { value, .. } => (expr_ops(value), 0, 1),
        SpecTypedStatement::Assign { value, .. } => (expr_ops(value), 0, 1),
        SpecTypedStatement::Return { value } => (expr_ops(value), 0, 0),
        SpecTypedStatement::If { condition, then_branch, else_branch } => {
            let t = block_size(then_branch);
            let e = block_size(else_branch);
            (expr_ops(condition) + t.0 + e.0, 1 + t.1 + e.1, t.2 + e.2)
        },
    }
}

/// Whether the counters of a builder in state `s` stay within 32 bits while it lowers
/// `statements`, by a bound on the size of the statements: each operation takes one value id,
/// each `if` three blocks and at most one value id per symbol defined when it starts.
pub open spec fn within_limits(s: BuildState, statements: Seq<SpecTypedStatement>) -> bool {
    let (ops, branches, binds) = block_size(statements);
    &&& s.next_value + ops + branches * (s.definitions.len() + binds) <= u32::MAX
    &&& s.blocks.len() + 3 * branches <= u32::MAX + 1
}

proof fn lemma_expr_counters(s: BuildState, expr: TypedExpr)
    requires
        build_state_wf(s),
    ensures
        build_expr_spec(s, expr).0.next_value == s.next_value + expr_ops(expr),
        build_expr_spec(s, expr).0.blocks.len() == s.blocks.len(),
        build_expr_spec(s, expr).0.definitions == s.definitions,
    decreases expr,
{
    if let TypedExpr::Binary { left, right, .. } = expr {
        lemma_expr_counters(s, *left);
        lemma_build_expr_grows(s, *left);
        let (s1, _) = build_expr_spec(s, *left);
        lemma_expr_counters(s1, *right);
        lemma_build_expr_grows(s1, *right);
    }
}

proof fn lemma_merge_counters(
    s: BuildState,
    outer: Seq<(SymbolId, Operand)>,
    k: int,
    then_definitions: Seq<(SymbolId, Operand)>,
    else_definitions: Seq<(SymbolId, Operand)>,
    then_end: int,
    else_end: int,
    then_live: bool,
    else_live: bool,
)
    requires
        0 <= k <= outer.len(),
        build_state_wf(s),
    ensures
        ({
            let t = merge_spec(
                s,
                outer,
                k,
                then_definitions,
                else_definitions,
                then_end,
                else_end,
                then_live,
                else_live,
            );
            &&& t.next_value <= s.next_value + (outer.len() - k)
            &&& t.blocks.len() == s.blocks.len()
            &&& t.definitions.len() == s.definitions.len() + (outer.len() - k)
        }),
    decreases outer.len() - k,
{
    if k < outer.len() {
        let next = merge_step(
            s,
            outer[k].0,
            outer[k].1,
            then_definitions,
            else_definitions,
            then_end,
            else_end,
            then_live,
            else_live,
        );
        lemma_merge_step_grows(
            s,
            outer[k].0,
            outer[k].1,
            then_definitions,
            else_definitions,
            then_end,
            else_end,
            then_live,
            else_live,
        );
        lemma_merge_counters(
            next,
            outer,
            k + 1,
            then_definitions,
            else_definitions,
            then_end,
            else_end,
            then_live,
            else_live,
        );
    }
}

proof fn lemma_statements_counters(s: BuildState, statements: Seq<SpecTypedStatement>)
    requires
        build_state_wf(s),
    ensures
        ({
            let t = build_statements_spec(s, statements);
            let (ops, branches, binds) = block_size(statements);
            &&& t.next_value <= s.next_value + ops + branches * (s.definitions.len() + binds)
            &&& t.blocks.len() <= s.blocks.len() + 3 * branches
            &&& t.definitions.len() <= s.definitions.len() + binds
        }),
    decreases statements, 2nat,
{
    if !(statements.len() == 0 || !(0 <= s.current < s.blocks.len()) || s.blocks[s.current].terminator is Some) {
        let rest = statements.subrange(1, statements.len() as int);
        lemma_statement_counters(s, statements[0]);
        lemma_build_statement_grows(s, statements[0]);
        let after = build_statement_spec(s, statements[0]);
        lemma_statements_counters(after, rest);
        let (o0, i0, b0) = statement_size(statements[0]);
        let (o1, i1, b1) = block_size(rest);
        let d = s.definitions.len();
        let d1 = after.definitions.len();
        assert(i0 * (d + b0) + i1 * (d1 + b1) <= (i0 + i1) * (d + b0 + b1)) by (nonlinear_arith)
            requires
                d1 <= d + b0,
        {}
    }
}

proof fn lemma_statement_counters(s: BuildState, statement: SpecTypedStatement)
    requires
        build_state_wf(s),
    ensures
        ({
            let t = build_statement_spec(s, statement);
            let (ops, branches, binds) = statement_size(statement);
            &&& t.next_value <= s.next_value + ops + branches * (s.definitions.len() + binds)
            &&& t.blocks.len() <= s.blocks.len() + 3 * branches
            &&& t.definitions.len() <= s.definitions.len() + binds
        }),
    decreases statement, 1nat,
{
    match statement {
        SpecTypedStatement::Let { symbol, value } => {
            lemma_expr_counters(s, value);
            lemma_build_expr_grows(s, value);
            let (s1, op) = build_expr_spec(s, value);
            lemma_definition_index(s1.definitions, symbol.spec_id());
            assert(define_spec(s1.definitions, symbol.spec_id(), op).len() <= s1.definitions.len() + 1);
        },
        SpecTypedStatement::Assign { symbol, value } => {
            lemma_expr_counters(s, value);
            lemma_build_expr_grows(s, value);
            let (s1, op) = build_expr_spec(s, value);
            lemma_definition_index(s1.definitions, symbol.spec_id());
            assert(define_spec(s1.definitions, symbol.spec_id(), op).len() <= s1.definitions.len() + 1);
        },
        SpecTypedStatement::Return { value } => {
            lemma_expr_counters(s, value);
            lemma_build_expr_grows(s, value);
        },
        SpecTypedStatement::If { condition, then_branch, else_branch } => {
            let (h, s4, s5, s6, s7) = if_states(s, statement);
            lemma_if_chain(s, statement);
            lemma_expr_counters(s, condition);
            let (s1, c) = build_expr_spec(s, condition);
            let n = s1.blocks.len() as int;
            let start_then = with_current(h, n);
            let start_else = with_definitions(with_current(s5, n + 1), h.definitions);
            let start_merge = with_definitions(with_current(s7, n + 2), Seq::empty());
            assert(h.definitions == s.definitions);
            assert(h.next_value == s1.next_value);
            assert(h.blocks.len() == n + 3);
            lemma_statements_counters(start_then, then_branch);
            lemma_statements_counters(start_else, else_branch);
            lemma_merge_counters(
                start_merge,
                h.definitions,
                0,
                s5.definitions,
                s7.definitions,
                s4.current,
                s6.current,
                branch_live(s4),
                branch_live(s6),
            );
            let (ot, it, bt) = block_size(then_branch);
            let (oe, ie, be) = block_size(else_branch);
            let d = s.definitions.len();
            let t = build_statement_spec(s, statement);
            assert(t == merge_spec(
                start_merge,
                h.definitions,
                0,
                s5.definitions,
                s7.definitions,
                s4.current,
                s6.current,
                branch_live(s4),
                branch_live(s6),
            ));
            assert(t.blocks.len() == s7.blocks.len());
            assert(s4.blocks.len() <= h.blocks.len() + 3 * it);
            assert(s6.blocks.len() <= s5.blocks.len() + 3 * ie);
            assert(s5.blocks.len() == s4.blocks.len());
            assert(s7.blocks.len() == s6.blocks.len());
            assert(s5.next_value == s4.next_value);
            assert(s7.next_value == s6.next_value);
            assert(it * (d + bt) + ie * (d + be) + d <= (1 + it + ie) * (d + bt + be)) by (nonlinear_arith);
        },
    }
}


/// A builder whose counters stay within the bound of `within_limits` lowers the statements
/// with counters that fit in 32 bits.
pub proof fn lemma_within_limits_fits(s: BuildState, statements: Seq<SpecTypedStatement>)
    requires
        build_state_wf(s),
        within_limits(s, statements),
    ensures
        fits(build_statements_spec(s, statements)),
{
    lemma_statements_counters(s, statements);
}

/// Keeping the blocks whose ids are all kept keeps every block.
proof fn lemma_keep_all(blocks: Seq<SpecBlock>, keep: Set<BlockId>)
    requires
        forall|j: int| 0 <= j < blocks.len() ==> keep.contains(#[trigger] blocks[j].id),
    ensures
        keep_blocks(blocks, keep) == blocks,
    decreases blocks.len(),
{
    if blocks.len() > 0 {
        let init = blocks.drop_last();
        assert forall|j: int| 0 <= j < init.len() implies keep.contains(#[trigger] init[j].id) by {
            assert(init[j] == blocks[j]);
        }
        lemma_keep_all(init, keep);
        assert(blocks.last() == blocks[blocks.len() - 1]);
        assert(init.push(blocks.last()) =~= blocks);
    }
}

/// After pruning, a block id names the block it named before when it is reachable, and no
/// block when it is not.
pub(crate) proof fn lemma_pruned_successors(g: SpecCfg, id: BlockId)
    ensures
        reachable_spec(g, id) ==> successors_spec(prune_spec(g), id) == successors_spec(g, id),
        !reachable_spec(g, id) ==> successors_spec(prune_spec(g), id) == Seq::<BlockId>::empty(),
{
    let r = reachable_set(g);
    let kept = keep_blocks(g.blocks, r);
    lemma_find_block_from(g.blocks, id, 0);
    lemma_find_block_from(kept, id, 0);
    match find_block(g.blocks, id) {
        Some(i) => {
            if r.contains(id) {
                lemma_find_kept(g.blocks, r, id, i);
            }
        },
        None => {},
    }
    if let Some(j) = find_block(kept, id) {
        assert(kept.contains(kept[j]));
        lemma_keep_sub(g.blocks, r, kept[j]);
        let k = choose|k: int| 0 <= k < g.blocks.len() && g.blocks[k] == kept[j];
        assert(g.blocks[k].id == id);
        lemma_keep_in(g.blocks, r, j);
    }
}

/// The blocks pruning keeps have kept ids.
pub(crate) proof fn lemma_keep_in(blocks: Seq<SpecBlock>, keep: Set<BlockId>, j: int)
    requires
        0 <= j < keep_blocks(blocks, keep).len(),
    ensures
        keep.contains(keep_blocks(blocks, keep)[j].id),
    decreases blocks.len(),
{
    let init = blocks.drop_last();
    let rest = keep_blocks(init, keep);
    if keep.contains(blocks.last().id) && j == rest.len() {
    } else {
        lemma_keep_in(init, keep, j);
    }
}

/// Pruning keeps what control can reach: the pruned graph reaches the blocks the graph
/// reached, and pruning it again changes nothing.
pub proof fn lemma_prune_keeps_reachability(g: SpecCfg)
    ensures
        reachable_set(prune_spec(g)) == reachable_set(g),
        prune_spec(prune_spec(g)) == prune_spec(g),
{
    let h = prune_spec(g);
    assert forall|x: BlockId| reachable_spec(h, x) implies reachable_spec(g, x) by {
        let path = choose|path: Seq<BlockId>| is_entry_path(h, path) && path.last() == x;
        assert forall|k: int| 0 <= k < path.len() - 1 implies #[trigger] successors_spec(g, path[k]).contains(
            path[k + 1],
        ) by {
            assert(successors_spec(h, path[k]).contains(path[k + 1]));
            lemma_pruned_successors(g, path[k]);
        }
        assert(is_entry_path(g, path));
    }
    assert forall|x: BlockId| reachable_spec(g, x) implies reachable_spec(h, x) by {
        let path = choose|path: Seq<BlockId>| is_entry_path(g, path) && path.last() == x;
        assert forall|k: int| 0 <= k < path.len() - 1 implies #[trigger] successors_spec(h, path[k]).contains(
            path[k + 1],
        ) by {
            lemma_path_reaches(g, path, k);
            lemma_pruned_successors(g, path[k]);
        }
        assert(is_entry_path(h, path));
    }
    assert(reachable_set(h) =~= reachable_set(g));
    let kept = keep_blocks(g.blocks, reachable_set(g));
    assert forall|j: int| 0 <= j < kept.len() implies reachable_set(g).contains(#[trigger] kept[j].id) by {
        lemma_keep_in(g.blocks, reachable_set(g), j);
    }
    lemma_keep_all(kept, reachable_set(g));
}

/// Every block on a walk from the entry is reachable.
proof fn lemma_path_reaches(g: SpecCfg, path: Seq<BlockId>, k: int)
    requires
        is_entry_path(g, path),
        0 <= k < path.len(),
    ensures
        reachable_spec(g, path[k]),
    decreases k,
{
    if k == 0 {
        lemma_entry_reachable(g);
        assert(path[0] == g.entry);
    } else {
        lemma_path_reaches(g, path, k - 1);
        assert(successors_spec(g, path[k - 1]).contains(path[k - 1 + 1]));
        lemma_reachable_step(g, path[k - 1], path[k]);
    }
}


/// Gives block `b` the next rank.
pub open spec fn assign_rank(rk: (Map<int, nat>, nat), b: int) -> (Map<int, nat>, nat) {
    (rk.0.insert(b, rk.1), rk.1 + 1)
}

/// The ranks of the blocks after lowering `statements` from `s`: a block is ranked when it
/// becomes the block being filled, in that order.
pub open spec fn rank_statements(
    s: BuildState,
    statements: Seq<SpecTypedStatement>,
    rk: (Map<int, nat>, nat),
) -> (Map<int, nat>, nat)
    decreases statements, 2nat,
{
    if statements.len() == 0 || !(0 <= s.current < s.blocks.len()) || s.blocks[s.current].terminator is Some {
        rk
    } else {
        rank_statements(
            build_statement_spec(s, statements[0]),
            statements.subrange(1, statements.len() as int),
            rank_statement(s, statements[0], rk),
        )
    }
}

pub open spec fn rank_statement(s: BuildState, statement: SpecTypedStatement, rk: (Map<int, nat>, nat)) -> (
    Map<int, nat>,
    nat,
)
    decreases statement, 1nat,
{
    match statement {
        SpecTypedStatement::If { then_branch, else_branch, .. } => {
            let (h, s4, s5, s6, s7) = if_states(s, statement);
            let n = h.blocks.len() - 3;
            let r1 = rank_statements(with_current(h, n), then_branch, assign_rank(rk, n));
            let r2 = rank_statements(
                with_definitions(with_current(s5, n + 1), h.definitions),
                else_branch,
                assign_rank(r1, n + 1),
            );
            assign_rank(r2, n + 2)
        },
        _ => rk,
    }
}

/// Whether the ranks order the edges of a state: the block being filled and every block with a
/// terminator are ranked, ranks are below the next one, and every edge into a ranked block
/// comes from a block of lower rank.
pub open spec fn ranked(s: BuildState, rk: (Map<int, nat>, nat)) -> bool {
    &&& rk.0.contains_key(s.current)
    &&& forall|b: int| #[trigger] rk.0.contains_key(b) ==> 0 <= b < s.blocks.len() && rk.0[b] < rk.1
    &&& forall|p: int, x: int|
        0 <= p < s.blocks.len() && 0 <= x < s.blocks.len() && #[trigger] targets(s.blocks[p], x)
            ==> rk.0.contains_key(p) && (rk.0.contains_key(x) ==> rk.0[p] < rk.0[x])
}

/// Ranking an unranked block and making it the block being filled keeps the edges ordered.
pub(crate) proof fn lemma_rank_current(s: BuildState, rk: (Map<int, nat>, nat), x: int)
    requires
        ranked(s, rk),
        0 <= x < s.blocks.len(),
        !rk.0.contains_key(x),
    ensures
        ranked(with_current(s, x), assign_rank(rk, x)),
{
    let t = with_current(s, x);
    let r = assign_rank(rk, x);
    assert forall|p: int, y: int|
        0 <= p < t.blocks.len() && 0 <= y < t.blocks.len() && #[trigger] targets(t.blocks[p], y) implies r.0.contains_key(p)
            && (r.0.contains_key(y) ==> r.0[p] < r.0[y]) by {
        assert(targets(s.blocks[p], y));
    }
}

/// A state with the same blocks and block being filled is ranked alike.
pub(crate) proof fn lemma_ranked_same_terminators(s: BuildState, t: BuildState, rk: (Map<int, nat>, nat))
    requires
        ranked(s, rk),
        same_terminators(s.blocks, t.blocks),
        t.current == s.current,
    ensures
        ranked(t, rk),
{
    assert forall|p: int, y: int|
        0 <= p < t.blocks.len() && 0 <= y < t.blocks.len() && #[trigger] targets(t.blocks[p], y) implies rk.0.contains_key(p)
            && (rk.0.contains_key(y) ==> rk.0[p] < rk.0[y]) by {
        assert(t.blocks[p].terminator == s.blocks[p].terminator);
        assert(targets(s.blocks[p], y));
    }
}

/// Ending the block being filled with a terminator to unranked blocks keeps the edges ordered.
pub(crate) proof fn lemma_rank_terminator(s: BuildState, rk: (Map<int, nat>, nat), terminator: Terminator)
    requires
        ranked(s, rk),
        build_inv(s),
        forall|x: BlockId| #[trigger] terminator_targets(Some(terminator)).contains(x) ==> !rk.0.contains_key(
            x as int,
        ),
    ensures
        ranked(with_terminator(s, s.current, terminator), rk),
{
    let t = with_terminator(s, s.current, terminator);
    assert forall|p: int, y: int|
        0 <= p < t.blocks.len() && 0 <= y < t.blocks.len() && #[trigger] targets(t.blocks[p], y) implies rk.0.contains_key(p)
            && (rk.0.contains_key(y) ==> rk.0[p] < rk.0[y]) by {
        if p != s.current {
            assert(targets(s.blocks[p], y));
        } else {
            assert(terminator_targets(Some(terminator)).contains(y as BlockId));
        }
    }
}

/// Adding an empty block keeps the edges ordered.
pub(crate) proof fn lemma_rank_new_block(s: BuildState, rk: (Map<int, nat>, nat))
    requires
        ranked(s, rk),
        build_inv(s),
        s.blocks.len() + 1 <= u32::MAX + 1,
    ensures
        ranked(with_new_block(s), rk),
{
    let t = with_new_block(s);
    assert forall|p: int, y: int|
        0 <= p < t.blocks.len() && 0 <= y < t.blocks.len() && #[trigger] targets(t.blocks[p], y) implies rk.0.contains_key(p)
            && (rk.0.contains_key(y) ==> rk.0[p] < rk.0[y]) by {
        if p < s.blocks.len() {
            assert(t.blocks[p] == s.blocks[p]);
            assert(terminator_targets(s.blocks[p].terminator).contains(y as BlockId));
            assert(targets(s.blocks[p], y));
        } else {
            assert(terminator_targets(t.blocks[p].terminator) =~= Seq::<BlockId>::empty());
        }
    }
}

/// A run through blocks whose edges are among those of ranked `blocks`, where every edge leads
/// to a higher rank, takes no more steps than there are ranks above its block.
proof fn lemma_run_within_ranks(
    blocks: Seq<SpecBlock>,
    g: SpecCfg,
    r: (Map<int, nat>, nat),
    fuel: nat,
    current: BlockId,
    predecessor: Option<BlockId>,
    values: Map<ValueId, i64>,
)
    requires
        targets_in_range(blocks),
        forall|b: int| 0 <= b < blocks.len() ==> #[trigger] r.0.contains_key(b),
        forall|b: int| 0 <= b < blocks.len() ==> #[trigger] r.0[b] < r.1,
        forall|p: int, x: int|
            0 <= p < blocks.len() && 0 <= x < blocks.len() && #[trigger] targets(blocks[p], x) ==> r.0[p]
                < r.0[x],
        sub_edges(g.blocks, blocks),
        fuel >= 1,
        (current as int) < blocks.len() ==> fuel >= r.1 - r.0[current as int],
    ensures
        run_spec(g, fuel, current, predecessor, values) != Err::<i64, CfgRuntimeError>(
            CfgRuntimeError::StepLimitExceeded,
        ),
    decreases fuel,
{
    lemma_find_block_from(g.blocks, current, 0);
    if let Some(i) = find_block(g.blocks, current) {
        let c = current as int;
        assert(g.blocks[i].id == current);
        assert((g.blocks[i].id as int) < blocks.len());
        assert(c < blocks.len());
        assert(r.0.contains_key(c) && r.0[c] < r.1);
        lemma_phis_not_step_limit(g.blocks[i].instructions, 0, predecessor, values);
        if let Ok(results) = phi_results(g.blocks[i].instructions, 0, predecessor, values) {
            lemma_instructions_not_step_limit(g.blocks[i].instructions, 0, record(values, results));
        }
        if let Ok(after) = block_values(g.blocks[i], predecessor, values) {
            let ts = terminator_targets(g.blocks[i].terminator);
            assert forall|x: BlockId| ts.contains(x) implies (x as int) < blocks.len() && r.0[c] < r.0[x as int] && fuel
                - 1 >= r.1 - r.0[x as int] && fuel - 1 >= 1 by {
                assert(terminator_targets(blocks[c].terminator).contains(x));
                assert((x as int) < blocks.len());
                assert((x as int) as BlockId == x);
                assert(targets(blocks[c], x as int));
                let xi = x as int;
                assert(0 <= xi < blocks.len());
                assert(r.0.contains_key(xi));
                assert(r.0[xi] < r.1);
            }
            match g.blocks[i].terminator {
                Some(Terminator::Jump(target)) => {
                    assert(ts[0] == target);
                    assert(ts.contains(target));
                    lemma_run_within_ranks(blocks, g, r, (fuel - 1) as nat, target, Some(current), after);
                },
                Some(Terminator::Branch { condition, then_block, else_block }) => {
                    if let Ok(v) = resolve_spec(after, condition) {
                        assert(ts[0] == then_block && ts[1] == else_block);
                        let next = if v != 0 { then_block } else { else_block };
                        assert(ts.contains(next));
                        lemma_run_within_ranks(blocks, g, r, (fuel - 1) as nat, next, Some(current), after);
                    }
                },
                _ => {},
            }
        }
    }
}

/// Running the graph a fresh builder makes, or its optimized form, never runs out of steps:
/// control never comes back to a block, so a run passes fewer blocks than the graph has.
pub proof fn lemma_built_graph_within_step_limit(statements: Seq<SpecTypedStatement>)
    requires
        fits(build_statements_spec(initial_build_state(), statements)),
    ensures
        execute_spec(built_graph(statements)) != Err::<i64, CfgRuntimeError>(CfgRuntimeError::StepLimitExceeded),
        execute_spec(optimize_spec(built_graph(statements)).0) != Err::<i64, CfgRuntimeError>(
            CfgRuntimeError::StepLimitExceeded,
        ),
{
    let init = initial_build_state();
    let last = build_statements_spec(init, statements);
    let blocks = last.blocks;
    let raw = SpecCfg { entry: 0, blocks };
    let g = built_graph(statements);
    assert(init.blocks[0].id == 0);
    assert(terminator_targets(init.blocks[0].terminator) =~= Seq::<BlockId>::empty());
    assert(build_inv(init));
    let rk0: (Map<int, nat>, nat) = (map![0int => 0nat], 1nat);
    assert(ranked(init, rk0));
    lemma_statements_inv(init, statements, rk0);
    let r = rank_statements(init, statements, rk0);
    assert forall|b: int| 0 <= b < blocks.len() implies #[trigger] r.0.contains_key(b) by {
        if b == 0 {
            assert(rk0.0.contains_key(0));
        }
    }
    assert forall|b: int| 0 <= b < blocks.len() implies #[trigger] r.0[b] < r.1 by {
        assert(r.0.contains_key(b));
    }
    lemma_kept_blocks(blocks, reachable_set(raw));
    assert forall|j: int| 0 <= j < g.blocks.len() implies (#[trigger] g.blocks[j].id as int) < blocks.len() && forall|x: BlockId|
        terminator_targets(g.blocks[j].terminator).contains(x) ==> terminator_targets(
            blocks[g.blocks[j].id as int].terminator,
        ).contains(x) by {
        let pb = pruned_graph(statements).blocks[j];
        assert(g.blocks[j] == simplify_block_spec(pruned_graph(statements), pb));
        assert(pb == blocks[pb.id as int]);
    }
    assert(r.0[0] == 0);
    lemma_run_within_ranks(blocks, g, r, step_limit(), 0, None, Map::empty());
    lemma_optimize_sub_edges(g, blocks);
    let h = optimize_spec(g).0;
    assert(h.entry == g.entry);
    lemma_run_within_ranks(blocks, h, r, step_limit(), 0, None, Map::empty());
}

proof fn lemma_phis_not_step_limit(
    instructions: Seq<SpecInstruction>,
    k: int,
    predecessor: Option<BlockId>,
    values: Map<ValueId, i64>,
)
    ensures
        phi_results(instructions, k, predecessor, values) != Err::<Seq<(ValueId, i64)>, CfgRuntimeError>(
            CfgRuntimeError::StepLimitExceeded,
        ),
    decreases instructions.len() - k,
{
    if 0 <= k < instructions.len() {
        lemma_phis_not_step_limit(instructions, k + 1, predecessor, values);
    }
}

proof fn lemma_instructions_not_step_limit(instructions: Seq<SpecInstruction>, k: int, values: Map<ValueId, i64>)
    ensures
        run_instructions(instructions, k, values) != Err::<Map<ValueId, i64>, CfgRuntimeError>(
            CfgRuntimeError::StepLimitExceeded,
        ),
    decreases instructions.len() - k,
{
    if 0 <= k < instructions.len() {
        match instructions[k] {
            SpecInstruction::Binary { result, op, left, right } => {
                if let Ok(l) = resolve_spec(values, left) {
                    if let Ok(r) = resolve_spec(values, right) {
                        if let Ok(v) = binary_spec(op, l, r) {
                            lemma_instructions_not_step_limit(instructions, k + 1, values.insert(result, v));
                        }
                    }
                }
            },
            _ => {
                lemma_instructions_not_step_limit(instructions, k + 1, values);
            },
        }
    }
}

/// Whether every block of `h` has the id of a block of `base` and only edges that block has.
pub open spec fn sub_edges(h: Seq<SpecBlock>, base: Seq<SpecBlock>) -> bool {
    forall|j: int|
        0 <= j < h.len() ==> (#[trigger] h[j].id as int) < base.len() && forall|x: BlockId|
            terminator_targets(h[j].terminator).contains(x) ==> terminator_targets(
                base[h[j].id as int].terminator,
            ).contains(x)
}

proof fn lemma_dce_sub_edges(g: SpecCfg, base: Seq<SpecBlock>, fuel: nat)
    requires
        sub_edges(g.blocks, base),
    ensures
        sub_edges(dce_from(g, fuel).0.blocks, base),
        dce_from(g, fuel).0.entry == g.entry,
    decreases fuel,
{
    let used = used_values(g);
    let removed = dead_total(g.blocks, g.blocks.len() as int, used);
    if fuel > 0 && removed != 0 {
        let next = dce_pass_spec(g);
        assert forall|j: int| 0 <= j < next.blocks.len() implies (#[trigger] next.blocks[j].id as int) < base.len()
            && forall|x: BlockId| terminator_targets(next.blocks[j].terminator).contains(x) ==> terminator_targets(
                base[next.blocks[j].id as int].terminator,
            ).contains(x) by {
            assert(next.blocks[j] == dce_block_spec(g.blocks[j], used));
            assert(g.blocks[j].id == next.blocks[j].id);
        }
        lemma_dce_sub_edges(next, base, (fuel - 1) as nat);
    }
}

/// Optimizing keeps block ids and removes edges without adding any.
proof fn lemma_optimize_sub_edges(g: SpecCfg, base: Seq<SpecBlock>)
    requires
        sub_edges(g.blocks, base),
    ensures
        sub_edges(optimize_spec(g).0.blocks, base),
        optimize_spec(g).0.entry == g.entry,
{
    let (values, executable) = analysis_spec(g);
    let g2 = propagated_spec(g);
    assert(g2.blocks.len() == g.blocks.len());
    assert forall|j: int| 0 <= j < g2.blocks.len() implies (#[trigger] g2.blocks[j].id as int) < base.len()
        && forall|x: BlockId| terminator_targets(g2.blocks[j].terminator).contains(x) ==> terminator_targets(
            base[g2.blocks[j].id as int].terminator,
        ).contains(x) by {
        let b = g.blocks[j];
        assert(g2.blocks[j] == fold_block_spec(rewrite_block_spec(b, values, executable), values, executable));
        lemma_fold_rewrite_targets(b, values, executable);
        assert((g.blocks[j].id as int) < base.len());
        assert forall|x: BlockId| terminator_targets(g2.blocks[j].terminator).contains(x) implies terminator_targets(
            base[g2.blocks[j].id as int].terminator,
        ).contains(x) by {
            assert(terminator_targets(g.blocks[j].terminator).contains(x));
        }
    }
    let g3 = prune_spec(g2);
    assert forall|j: int| 0 <= j < g3.blocks.len() implies (#[trigger] g3.blocks[j].id as int) < base.len()
        && forall|x: BlockId| terminator_targets(g3.blocks[j].terminator).contains(x) ==> terminator_targets(
            base[g3.blocks[j].id as int].terminator,
        ).contains(x) by {
        assert(g3.blocks.contains(g3.blocks[j]));
        lemma_keep_sub(g2.blocks, reachable_set(g2), g3.blocks[j]);
        let k = choose|k: int| 0 <= k < g2.blocks.len() && g2.blocks[k] == g3.blocks[j];
        assert(g2.blocks[k].id == g3.blocks[j].id);
    }
    let g4 = simplify_spec(g3);
    assert forall|j: int| 0 <= j < g4.blocks.len() implies (#[trigger] g4.blocks[j].id as int) < base.len()
        && forall|x: BlockId| terminator_targets(g4.blocks[j].terminator).contains(x) ==> terminator_targets(
            base[g4.blocks[j].id as int].terminator,
        ).contains(x) by {
        assert(g4.blocks[j] == simplify_block_spec(g3, g3.blocks[j]));
        assert(g3.blocks[j].id == g4.blocks[j].id);
    }
    lemma_dce_sub_edges(g4, base, instruction_total(g4.blocks, g4.blocks.len() as int) + 1);
}

/// Propagating constants and folding branches keep a block's id and only drop edges.
proof fn lemma_fold_rewrite_targets(b: SpecBlock, values: Map<ValueId, Lattice>, executable: Set<BlockId>)
    ensures
        fold_block_spec(rewrite_block_spec(b, values, executable), values, executable).id == b.id,
        forall|x: BlockId|
            terminator_targets(fold_block_spec(rewrite_block_spec(b, values, executable), values, executable).terminator).contains(
                x,
            ) ==> terminator_targets(b.terminator).contains(x),
{
    let f = fold_block_spec(rewrite_block_spec(b, values, executable), values, executable);
    assert forall|x: BlockId| terminator_targets(f.terminator).contains(x) implies terminator_targets(
        b.terminator,
    ).contains(x) by {
        let ts = terminator_targets(f.terminator);
        let k = choose|k: int| 0 <= k < ts.len() && ts[k] == x;
        let bt = terminator_targets(b.terminator);
        match b.terminator {
            Some(Terminator::Branch { then_block, else_block, .. }) => {
                assert(bt[0] == then_block && bt[1] == else_block);
                if executable.contains(b.id) {
                    match f.terminator {
                        Some(Terminator::Jump(t)) => {
                            assert(ts[0] == t);
                            assert(t == then_block || t == else_block);
                        },
                        _ => {},
                    }
                }
            },
            Some(Terminator::Jump(target)) => {
                assert(bt[0] == target);
            },
            _ => {},
        }
    }
}

/// Whether `path` follows edges of the blocks, block position by block position.
pub open spec fn is_walk(blocks: Seq<SpecBlock>, path: Seq<int>) -> bool {
    &&& path.len() > 0
    &&& forall|k: int| 0 <= k < path.len() ==> 0 <= #[trigger] path[k] < blocks.len()
    &&& forall|k: int| 0 <= k < path.len() - 1 ==> #[trigger] targets(blocks[path[k]], path[k + 1])
}

/// Whether some walk leads from the block at position `a` to the block at position `b`.
pub open spec fn walks_to(blocks: Seq<SpecBlock>, a: int, b: int) -> bool {
    exists|path: Seq<int>| #[trigger] is_walk(blocks, path) && path[0] == a && path.last() == b
}

/// A stretch of a walk is a walk.
proof fn lemma_sub_walk(blocks: Seq<SpecBlock>, path: Seq<int>, i: int, j: int)
    requires
        is_walk(blocks, path),
        0 <= i <= j < path.len(),
    ensures
        is_walk(blocks, path.subrange(i, j + 1)),
        path.subrange(i, j + 1)[0] == path[i],
        path.subrange(i, j + 1).last() == path[j],
{
    let sub = path.subrange(i, j + 1);
    assert forall|k: int| 0 <= k < sub.len() implies 0 <= #[trigger] sub[k] < blocks.len() by {
        assert(sub[k] == path[i + k]);
    }
    assert forall|k: int| 0 <= k < sub.len() - 1 implies #[trigger] targets(blocks[sub[k]], sub[k + 1]) by {
        assert(sub[k] == path[i + k] && sub[k + 1] == path[i + k + 1]);
    }
}

/// A walk whose blocks, but for the last, end alike in other blocks is a walk there too.
proof fn lemma_walk_transfer(a: Seq<SpecBlock>, b: Seq<SpecBlock>, path: Seq<int>)
    requires
        is_walk(a, path),
        forall|k: int| 0 <= k < path.len() ==> #[trigger] path[k] < b.len(),
        forall|k: int| 0 <= k < path.len() - 1 ==> (#[trigger] b[path[k]]).terminator == a[path[k]].terminator,
    ensures
        is_walk(b, path),
{
    assert forall|k: int| 0 <= k < path.len() - 1 implies #[trigger] targets(b[path[k]], path[k + 1]) by {
        assert(b[path[k]].terminator == a[path[k]].terminator);
        assert(targets(a[path[k]], path[k + 1]));
    }
    assert forall|k: int| 0 <= k < path.len() implies 0 <= #[trigger] path[k] < b.len() by {
        assert(0 <= path[k]);
    }
}

/// The first position of a walk whose block is in `region`, given that its last block is.
proof fn lemma_first_in(path: Seq<int>, region: Set<int>, n: int) -> (j: int)
    requires
        0 < n <= path.len(),
        region.contains(path[n - 1]),
    ensures
        0 <= j < n,
        region.contains(path[j]),
        forall|k: int| 0 <= k < j ==> !region.contains(#[trigger] path[k]),
    decreases n,
{
    if n > 1 && exists|k: int| 0 <= k < n - 1 && region.contains(path[k]) {
        let k = choose|k: int| 0 <= k < n - 1 && region.contains(path[k]);
        lemma_first_in(path, region, k + 1)
    } else {
        n - 1
    }
}

/// The last position of a walk whose block is outside `region`, given that its first block is.
proof fn lemma_last_outside(path: Seq<int>, region: Set<int>, n: int) -> (j: int)
    requires
        0 < n <= path.len(),
        !region.contains(path[0]),
    ensures
        0 <= j < n,
        !region.contains(path[j]),
        forall|k: int| j < k < n ==> region.contains(#[trigger] path[k]),
    decreases n,
{
    if !region.contains(path[n - 1]) {
        n - 1
    } else {
        lemma_last_outside(path, region, n - 1)
    }
}

/// A walk that enters a region whose only way out is the jump of block `x` to `m`, and that
/// reaches `m` at position `j` for the first time, leaves the region from `x`, and its stretch
/// inside the region is a walk of `inner`, whose region blocks other than `x` end alike.
proof fn lemma_walk_leaves_region(
    t: Seq<SpecBlock>,
    inner: Seq<SpecBlock>,
    region: Set<int>,
    x: int,
    m: int,
    p: Seq<int>,
    i: int,
    j: int,
)
    requires
        is_walk(t, p),
        0 <= i < j < p.len(),
        p[j] == m,
        forall|k: int| i <= k < j ==> #[trigger] p[k] != m,
        region.contains(p[i]),
        region.contains(x),
        !region.contains(m),
        forall|q: int| #[trigger] region.contains(q) ==> 0 <= q < inner.len(),
        forall|q: int| #[trigger] region.contains(q) && q != x ==> t[q].terminator == inner[q].terminator,
        forall|q: int, y: int|
            region.contains(q) && q != x && 0 <= y < t.len() && #[trigger] targets(inner[q], y)
                ==> region.contains(y),
        forall|y: int| 0 <= y < t.len() && #[trigger] targets(t[x], y) ==> y == m,
    ensures
        p[j - 1] == x,
        walks_to(inner, p[i], x),
{
    // Every block of the walk from `i` to just before `j` is in the region and, but for the
    // last, is not `x`.
    assert forall|k: int| i <= k < j implies #[trigger] region.contains(p[k]) && (k < j - 1 ==> p[k] != x) by {
        lemma_walk_stays(t, inner, region, x, m, p, i, j, k);
    }
    let q = p.subrange(i, j);
    lemma_sub_walk(t, p, i, j - 1);
    assert(q == p.subrange(i, j - 1 + 1));
    assert(region.contains(p[j - 1]));
    if p[j - 1] != x {
        assert(targets(t[p[j - 1]], p[j]));
        assert(targets(inner[p[j - 1]], m));
    }
    assert forall|k: int| 0 <= k < q.len() - 1 implies (#[trigger] inner[q[k]]).terminator == t[q[k]].terminator by {
        assert(q[k] == p[i + k]);
        assert(region.contains(p[i + k]));
        assert(p[i + k] != x);
        assert(t[p[i + k]].terminator == inner[p[i + k]].terminator);
    }
    assert forall|k: int| 0 <= k < q.len() implies #[trigger] q[k] < inner.len() by {
        assert(q[k] == p[i + k]);
        assert(region.contains(p[i + k]));
    }
    lemma_walk_transfer(t, inner, q);
    assert(is_walk(inner, q) && q[0] == p[i] && q.last() == x);
}

proof fn lemma_walk_stays(
    t: Seq<SpecBlock>,
    inner: Seq<SpecBlock>,
    region: Set<int>,
    x: int,
    m: int,
    p: Seq<int>,
    i: int,
    j: int,
    k: int,
)
    requires
        is_walk(t, p),
        0 <= i < j < p.len(),
        p[j] == m,
        forall|l: int| i <= l < j ==> #[trigger] p[l] != m,
        region.contains(p[i]),
        forall|q: int| #[trigger] region.contains(q) ==> 0 <= q < inner.len(),
        forall|q: int| #[trigger] region.contains(q) && q != x ==> t[q].terminator == inner[q].terminator,
        forall|q: int, y: int|
            region.contains(q) && q != x && 0 <= y < t.len() && #[trigger] targets(inner[q], y)
                ==> region.contains(y),
        forall|y: int| 0 <= y < t.len() && #[trigger] targets(t[x], y) ==> y == m,
        i <= k < j,
    ensures
        region.contains(p[k]),
        k < j - 1 ==> p[k] != x,
    decreases k - i,
{
    if k > i {
        lemma_walk_stays(t, inner, region, x, m, p, i, j, k - 1);
        assert(targets(t[p[k - 1]], p[k - 1 + 1]));
        if p[k - 1] == x {
            assert(p[k] == m);
        }
        assert(targets(inner[p[k - 1]], p[k]));
    }
    if k < j - 1 && p[k] == x {
        assert(targets(t[p[k]], p[k + 1]));
        assert(p[k + 1] == m);
    }
}

/// A walk from a region that no block of it leaves, as `inner` has it, never reaches a block
/// outside the region.
proof fn lemma_walk_closed_region(
    t: Seq<SpecBlock>,
    inner: Seq<SpecBlock>,
    region: Set<int>,
    m: int,
    p: Seq<int>,
    i: int,
    k: int,
)
    requires
        is_walk(t, p),
        0 <= i <= k < p.len(),
        region.contains(p[i]),
        forall|q: int| #[trigger] region.contains(q) ==> 0 <= q < inner.len(),
        forall|q: int| #[trigger] region.contains(q) ==> t[q].terminator == inner[q].terminator,
        forall|q: int, y: int|
            region.contains(q) && 0 <= y < t.len() && #[trigger] targets(inner[q], y) ==> region.contains(y),
    ensures
        region.contains(p[k]),
    decreases k - i,
{
    if k > i {
        lemma_walk_closed_region(t, inner, region, m, p, i, k - 1);
        assert(targets(t[p[k - 1]], p[k - 1 + 1]));
        assert(targets(inner[p[k - 1]], p[k]));
    }
}

/// No walk leads from the head of an `if` to its merge block when both branches end without
/// reaching it: a branch's walk stays in the branch's blocks until the branch's last block
/// jumps to the merge block, and a branch that returns on every path reaches its last block
/// only if that block has a terminator of its own.
proof fn lemma_if_merge_unreached(
    t: Seq<SpecBlock>,
    c: int,
    m: int,
    then_region: Set<int>,
    then_start: int,
    then_blocks: Seq<SpecBlock>,
    then_end: int,
    then_live: bool,
    else_region: Set<int>,
    else_start: int,
    else_blocks: Seq<SpecBlock>,
    else_end: int,
    else_live: bool,
)
    requires
        0 <= c < t.len(),
        forall|y: int| 0 <= y < t.len() && #[trigger] targets(t[c], y) ==> y == then_start || y == else_start,
        then_region.contains(then_start),
        then_region.contains(then_end),
        !then_region.contains(m),
        forall|q: int| #[trigger] then_region.contains(q) ==> 0 <= q < then_blocks.len(),
        forall|q: int| #[trigger] then_region.contains(q) && (q != then_end || !then_live)
            ==> t[q].terminator == then_blocks[q].terminator,
        forall|q: int, y: int|
            then_region.contains(q) && 0 <= y < t.len() && #[trigger] targets(then_blocks[q], y)
                ==> then_region.contains(y),
        then_live ==> forall|y: int| 0 <= y < t.len() && #[trigger] targets(t[then_end], y) ==> y == m,
        then_live ==> then_blocks[then_end].terminator is None && !walks_to(then_blocks, then_start, then_end),
        else_region.contains(else_start),
        else_region.contains(else_end),
        !else_region.contains(m),
        forall|q: int| #[trigger] else_region.contains(q) ==> 0 <= q < else_blocks.len(),
        forall|q: int| #[trigger] else_region.contains(q) && (q != else_end || !else_live)
            ==> t[q].terminator == else_blocks[q].terminator,
        forall|q: int, y: int|
            else_region.contains(q) && 0 <= y < t.len() && #[trigger] targets(else_blocks[q], y)
                ==> else_region.contains(y),
        else_live ==> forall|y: int| 0 <= y < t.len() && #[trigger] targets(t[else_end], y) ==> y == m,
        else_live ==> else_blocks[else_end].terminator is None && !walks_to(else_blocks, else_start, else_end),
        c != m,
    ensures
        !walks_to(t, c, m),
{
    if walks_to(t, c, m) {
        let p = choose|p: Seq<int>| #[trigger] is_walk(t, p) && p[0] == c && p.last() == m;
        let j = lemma_first_in(p, set![m], p.len() as int);
        assert(p[j] == m);
        assert(j >= 1);
        assert(p.len() > 1);
        let zero: int = 0;
        assert(targets(t[p[zero]], p[zero + 1]));
        assert forall|k: int| 1 <= k < j implies #[trigger] p[k] != m by {
            assert(!set![m].contains(p[k]));
        }
        if p[1] == then_start {
            if then_live {
                lemma_walk_leaves_region(t, then_blocks, then_region, then_end, m, p, 1, j);
            } else {
                lemma_walk_closed_region(t, then_blocks, then_region, m, p, 1, j);
            }
        } else {
            if else_live {
                lemma_walk_leaves_region(t, else_blocks, else_region, else_end, m, p, 1, j);
            } else {
                lemma_walk_closed_region(t, else_blocks, else_region, m, p, 1, j);
            }
        }
    }
}

/// What lowering from `s` to `t` leaves without a terminator: of the blocks added, only the
/// block being filled at the end; the block being filled at the start unless it still is; and,
/// when the statements return on every path, the block being filled at the end has a
/// terminator or cannot be reached from the one being filled at the start.
pub open spec fn ends_closed(s: BuildState, t: BuildState, returns: bool) -> bool {
    &&& forall|b: int|
        s.blocks.len() <= b < t.blocks.len() && b != t.current ==> (#[trigger] t.blocks[b]).terminator is Some
    &&& t.current != s.current ==> t.blocks[s.current].terminator is Some
    &&& returns ==> (t.blocks[t.current].terminator is Some || !walks_to(t.blocks, s.current, t.current))
}

proof fn lemma_walk_to_self(blocks: Seq<SpecBlock>, a: int)
    requires
        0 <= a < blocks.len(),
    ensures
        walks_to(blocks, a, a),
{
    let p = seq![a];
    assert(is_walk(blocks, p) && p[0] == a && p.last() == a);
}

/// A walk from a block before `after` that reaches the block `t` is filling must come in
/// through the block `after` was filling.
proof fn lemma_no_walk_into_later(after: BuildState, t: BuildState, c: int)
    requires
        frame(after, t),
        build_inv(after),
        build_inv(t),
        0 <= c < after.blocks.len(),
        c != after.current,
        !walks_to(after.blocks, c, after.current),
    ensures
        !walks_to(t.blocks, c, t.current),
{
    if walks_to(t.blocks, c, t.current) {
        let p = choose|p: Seq<int>| #[trigger] is_walk(t.blocks, p) && p[0] == c && p.last() == t.current;
        let n = after.blocks.len() as int;
        let region = Set::new(|q: int| q == after.current || (n <= q < t.blocks.len()));
        assert(p[p.len() - 1] == t.current);
        let j = lemma_first_in(p, region, p.len() as int);
        assert(j >= 1);
        let prev = p[j - 1];
        assert(targets(t.blocks[prev], p[j - 1 + 1]));
        assert(t.blocks[prev] == after.blocks[prev]);
        assert(terminator_targets(after.blocks[prev].terminator).contains(p[j] as BlockId));
        assert((p[j] as BlockId) as int == p[j]);
        assert(p[j] < n);
        assert(p[j] == after.current);
        let q = p.subrange(0, j + 1);
        lemma_sub_walk(t.blocks, p, 0, j);
        assert forall|k: int| 0 <= k < q.len() - 1 implies (#[trigger] after.blocks[q[k]]).terminator
            == t.blocks[q[k]].terminator by {
            assert(q[k] == p[k]);
            assert(!region.contains(p[k]));
            assert(t.blocks[p[k]] == after.blocks[p[k]]);
        }
        assert forall|k: int| 0 <= k < q.len() implies #[trigger] q[k] < after.blocks.len() by {
            assert(q[k] == p[k]);
            if k < j {
                assert(!region.contains(p[k]));
            }
        }
        lemma_walk_transfer(t.blocks, after.blocks, q);
        assert(is_walk(after.blocks, q) && q[0] == c && q.last() == after.current);
    }
}

/// A walk from a block before `after` to the block `t` is filling passes the block `after`
/// was filling.
proof fn lemma_no_walk_through(after: BuildState, t: BuildState, c: int)
    requires
        frame(after, t),
        build_inv(after),
        build_inv(t),
        0 <= c < after.blocks.len(),
        c != after.current,
        !walks_to(t.blocks, after.current, t.current),
    ensures
        !walks_to(t.blocks, c, t.current),
{
    if walks_to(t.blocks, c, t.current) {
        let p = choose|p: Seq<int>| #[trigger] is_walk(t.blocks, p) && p[0] == c && p.last() == t.current;
        let n = after.blocks.len() as int;
        let region = Set::new(|q: int| q == after.current || (n <= q < t.blocks.len()));
        assert(p[p.len() - 1] == t.current);
        let j = lemma_last_outside(p, region, p.len() as int);
        assert(region.contains(p[p.len() - 1]));
        assert(j < p.len() - 1);
        let prev = p[j];
        assert(targets(t.blocks[prev], p[j + 1]));
        assert(t.blocks[prev] == after.blocks[prev]);
        assert(terminator_targets(after.blocks[prev].terminator).contains(p[j + 1] as BlockId));
        assert((p[j + 1] as BlockId) as int == p[j + 1]);
        assert(p[j + 1] < n);
        assert(region.contains(p[j + 1]));
        assert(p[j + 1] == after.current);
        lemma_sub_walk(t.blocks, p, j + 1, p.len() - 1);
        let q = p.subrange(j + 1, p.len() - 1 + 1);
        assert(is_walk(t.blocks, q) && q[0] == after.current && q.last() == t.current);
    }
}

/// Whether every block has a terminator.
pub open spec fn all_terminated(blocks: Seq<SpecBlock>) -> bool {
    forall|j: int| 0 <= j < blocks.len() ==> (#[trigger] blocks[j]).terminator is Some
}

proof fn lemma_dce_terminated(g: SpecCfg, fuel: nat)
    requires
        all_terminated(g.blocks),
    ensures
        all_terminated(dce_from(g, fuel).0.blocks),
    decreases fuel,
{
    let used = used_values(g);
    let removed = dead_total(g.blocks, g.blocks.len() as int, used);
    if fuel > 0 && removed != 0 {
        let next = dce_pass_spec(g);
        assert forall|j: int| 0 <= j < next.blocks.len() implies (#[trigger] next.blocks[j]).terminator is Some by {
            assert(next.blocks[j] == dce_block_spec(g.blocks[j], used));
        }
        lemma_dce_terminated(next, (fuel - 1) as nat);
    }
}

/// Optimizing keeps a terminator on every block.
proof fn lemma_optimize_terminated(g: SpecCfg)
    requires
        all_terminated(g.blocks),
    ensures
        all_terminated(optimize_spec(g).0.blocks),
{
    let (values, executable) = analysis_spec(g);
    let g2 = propagated_spec(g);
    assert forall|j: int| 0 <= j < g2.blocks.len() implies (#[trigger] g2.blocks[j]).terminator is Some by {
        let b = g.blocks[j];
        assert(b.terminator is Some);
        assert(g2.blocks[j] == fold_block_spec(rewrite_block_spec(b, values, executable), values, executable));
    }
    let g3 = prune_spec(g2);
    assert forall|j: int| 0 <= j < g3.blocks.len() implies (#[trigger] g3.blocks[j]).terminator is Some by {
        assert(g3.blocks.contains(g3.blocks[j]));
        lemma_keep_sub(g2.blocks, reachable_set(g2), g3.blocks[j]);
        let k = choose|k: int| 0 <= k < g2.blocks.len() && g2.blocks[k] == g3.blocks[j];
    }
    let g4 = simplify_spec(g3);
    assert forall|j: int| 0 <= j < g4.blocks.len() implies (#[trigger] g4.blocks[j]).terminator is Some by {
        assert(g4.blocks[j] == simplify_block_spec(g3, g3.blocks[j]));
    }
    lemma_dce_terminated(g4, instruction_total(g4.blocks, g4.blocks.len() as int) + 1);
}

proof fn lemma_phis_not_missing_return(
    instructions: Seq<SpecInstruction>,
    k: int,
    predecessor: Option<BlockId>,
    values: Map<ValueId, i64>,
)
    ensures
        phi_results(instructions, k, predecessor, values) != Err::<Seq<(ValueId, i64)>, CfgRuntimeError>(
            CfgRuntimeError::MissingReturn,
        ),
    decreases instructions.len() - k,
{
    if 0 <= k < instructions.len() {
        lemma_phis_not_missing_return(instructions, k + 1, predecessor, values);
    }
}

proof fn lemma_instructions_not_missing_return(instructions: Seq<SpecInstruction>, k: int, values: Map<ValueId, i64>)
    ensures
        run_instructions(instructions, k, values) != Err::<Map<ValueId, i64>, CfgRuntimeError>(
            CfgRuntimeError::MissingReturn,
        ),
    decreases instructions.len() - k,
{
    if 0 <= k < instructions.len() {
        match instructions[k] {
            SpecInstruction::Binary { result, op, left, right } => {
                if let Ok(l) = resolve_spec(values, left) {
                    if let Ok(r) = resolve_spec(values, right) {
                        if let Ok(v) = binary_spec(op, l, r) {
                            lemma_instructions_not_missing_return(instructions, k + 1, values.insert(result, v));
                        }
                    }
                }
            },
            _ => {
                lemma_instructions_not_missing_return(instructions, k + 1, values);
            },
        }
    }
}

/// A run through blocks that all have a terminator never stops for want of one.
proof fn lemma_run_terminated(
    g: SpecCfg,
    fuel: nat,
    current: BlockId,
    predecessor: Option<BlockId>,
    values: Map<ValueId, i64>,
)
    requires
        all_terminated(g.blocks),
    ensures
        run_spec(g, fuel, current, predecessor, values) != Err::<i64, CfgRuntimeError>(CfgRuntimeError::MissingReturn),
    decreases fuel,
{
    if fuel > 0 {
        lemma_find_block_from(g.blocks, current, 0);
        if let Some(i) = find_block(g.blocks, current) {
            lemma_phis_not_missing_return(g.blocks[i].instructions, 0, predecessor, values);
            if let Ok(results) = phi_results(g.blocks[i].instructions, 0, predecessor, values) {
                lemma_instructions_not_missing_return(g.blocks[i].instructions, 0, record(values, results));
            }
            assert(g.blocks[i].terminator is Some);
            if let Ok(after) = block_values(g.blocks[i], predecessor, values) {
                match g.blocks[i].terminator {
                    Some(Terminator::Jump(target)) => {
                        lemma_run_terminated(g, (fuel - 1) as nat, target, Some(current), after);
                    },
                    Some(Terminator::Branch { condition, then_block, else_block }) => {
                        if let Ok(v) = resolve_spec(after, condition) {
                            let next = if v != 0 { then_block } else { else_block };
                            lemma_run_terminated(g, (fuel - 1) as nat, next, Some(current), after);
                        }
                    },
                    _ => {},
                }
            }
        }
    }
}

/// A walk from the entry of a graph whose block ids are positions is a walk by position.
pub(crate) proof fn lemma_entry_path_walk(g: SpecCfg, path: Seq<BlockId>)
    requires
        g.entry == 0,
        g.blocks.len() <= u32::MAX + 1,
        forall|q: int| 0 <= q < g.blocks.len() ==> #[trigger] g.blocks[q].id == q as BlockId,
        targets_in_range(g.blocks),
        is_entry_path(g, path),
        g.blocks.len() > 0,
    ensures
        walks_to(g.blocks, 0, path.last() as int),
{
    let w = path.map_values(|x: BlockId| x as int);
    assert forall|k: int| 0 <= k < w.len() implies 0 <= #[trigger] w[k] < g.blocks.len() by {
        if k == 0 {
            assert(path[0] == g.entry);
        } else {
            let j = k - 1;
            assert(successors_spec(g, path[j]).contains(path[j + 1]));
            lemma_find_block_from(g.blocks, path[j], 0);
            let i = find_block(g.blocks, path[j]).unwrap();
            assert(terminator_targets(g.blocks[i].terminator).contains(path[k]));
        }
    }
    assert forall|k: int| 0 <= k < w.len() - 1 implies #[trigger] targets(g.blocks[w[k]], w[k + 1]) by {
        assert(successors_spec(g, path[k]).contains(path[k + 1]));
        lemma_find_block_from(g.blocks, path[k], 0);
        let i = find_block(g.blocks, path[k]).unwrap();
        assert(g.blocks[i].id == path[k]);
        assert(w[k] == path[k] as int);
        assert(g.blocks[w[k]].id == w[k] as BlockId);
        assert(i == w[k]);
    }
    assert(w[0] == 0);
    assert(w.last() == path.last() as int);
    assert(is_walk(g.blocks, w));
}

/// The blocks a fresh builder makes: their ids are their positions, every terminator names one
/// of them, and where every path through the block returns, every block control can reach, and so
/// every block of the built graph, has a terminator.
pub(crate) proof fn lemma_built_blocks(statements: Seq<SpecTypedStatement>)
    requires
        fits(build_statements_spec(initial_build_state(), statements)),
    ensures
        build_inv(build_statements_spec(initial_build_state(), statements)),
        typed_block_returns(statements) ==> all_terminated(built_graph(statements).blocks),
{
    let init = initial_build_state();
    assert(init.blocks[0].id == 0);
    assert(terminator_targets(init.blocks[0].terminator) =~= Seq::<BlockId>::empty());
    assert(build_inv(init));
    let rk0: (Map<int, nat>, nat) = (map![0int => 0nat], 1nat);
    assert(ranked(init, rk0));
    lemma_statements_inv(init, statements, rk0);
    if typed_block_returns(statements) {
        lemma_built_terminated(statements);
    }
}

proof fn lemma_built_terminated(statements: Seq<SpecTypedStatement>)
    requires
        fits(build_statements_spec(initial_build_state(), statements)),
        typed_block_returns(statements),
    ensures
        all_terminated(built_graph(statements).blocks),
{
    let init = initial_build_state();
    let last = build_statements_spec(init, statements);
    let blocks = last.blocks;
    let raw = SpecCfg { entry: 0, blocks };
    let g = built_graph(statements);
    assert(init.blocks[0].id == 0);
    assert(terminator_targets(init.blocks[0].terminator) =~= Seq::<BlockId>::empty());
    assert(build_inv(init));
    let rk0: (Map<int, nat>, nat) = (map![0int => 0nat], 1nat);
    assert(ranked(init, rk0));
    lemma_statements_inv(init, statements, rk0);
    lemma_kept_blocks(blocks, reachable_set(raw));
    // Every block control can reach has a terminator.
    assert forall|q: int| 0 <= q < blocks.len() && reachable_spec(raw, q as BlockId) implies (
    #[trigger] blocks[q]).terminator is Some by {
        if q == last.current && blocks[q].terminator is None {
            let path = choose|path: Seq<BlockId>| is_entry_path(raw, path) && path.last() == q as BlockId;
            lemma_entry_path_walk(raw, path);
            if q == 0 {
                lemma_walk_to_self(blocks, 0);
            }
        }
    }
    assert forall|j: int| 0 <= j < g.blocks.len() implies (#[trigger] g.blocks[j]).terminator is Some by {
        let b = g.blocks[j];
        let pb = pruned_graph(statements).blocks[j];
        assert(g.blocks[j] == simplify_block_spec(pruned_graph(statements), pb));
        assert(pb == blocks[pb.id as int]);
        assert(reachable_set(raw).contains(b.id));
        assert((b.id as int) as BlockId == b.id);
        assert(blocks[b.id as int].terminator is Some);
    }
}

pub proof fn lemma_returning_graph_runs_to_return(statements: Seq<SpecTypedStatement>)
    requires
        fits(build_statements_spec(initial_build_state(), statements)),
        typed_block_returns(statements),
    ensures
        execute_spec(built_graph(statements)) != Err::<i64, CfgRuntimeError>(CfgRuntimeError::MissingReturn),
        execute_spec(optimize_spec(built_graph(statements)).0) != Err::<i64, CfgRuntimeError>(
            CfgRuntimeError::MissingReturn,
        ),
{
    lemma_built_blocks(statements);
    let g = built_graph(statements);
    lemma_run_terminated(g, step_limit(), g.entry, None, Map::empty());
    lemma_optimize_terminated(g);
    let h = optimize_spec(g).0;
    lemma_run_terminated(h, step_limit(), h.entry, None, Map::empty());
}

} // verus!
