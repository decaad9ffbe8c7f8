use vstd::prelude::*;

use crate::cfg::{
    block_scoped, build_expr_spec, build_state_wf, build_statements_spec, define_spec, definition_index,
    expr_scoped, lemma_definition_index, lookup_definition, with_definitions, with_instruction, with_next_value,
    with_terminator, BuildState, Operand, SpecInstruction, Terminator, ValueId,
};
use crate::ir::{branch_free, lower_statement_spec, IrInstruction};
use crate::runtime::run_ir_spec;
use crate::types::SpecTypedStatement;
use crate::build_laws::built_graph;
use crate::cfg::{fits, initial_build_state, keep_blocks, prune_spec, reachable_set, SpecCfg};
use crate::cfg_opt::{simplify_block_spec, simplify_instruction_spec, simplify_spec};
use crate::cfg_runtime::{block_values, execute_spec, record, run_spec, step_limit};
use crate::cfg_runtime::{binary_spec, resolve_spec, run_instructions, CfgRuntimeError};
use crate::ir::lower_expr_spec;
use crate::runtime::{eval_ir_spec, run_binary, RuntimeError};
use crate::types::{SymbolId, TypedExpr};

verus! {

/// Whether an error of the linear interpreter and one of the graph interpreter report the same
/// arithmetic failure.
pub open spec fn same_failure(a: RuntimeError, b: CfgRuntimeError) -> bool {
    ||| a == RuntimeError::DivisionByZero && b == CfgRuntimeError::DivisionByZero
    ||| a == RuntimeError::IntegerOverflow && b == CfgRuntimeError::IntegerOverflow
}

/// Whether running graph code gives what evaluating a linear value gives: the same value for
/// `operand` after the code, or the same failure.
pub open spec fn outcome_agrees(
    linear: Result<i64, RuntimeError>,
    run: Result<Map<ValueId, i64>, CfgRuntimeError>,
    operand: Operand,
) -> bool {
    match linear {
        Ok(v) => match run {
            Ok(after) => resolve_spec(after, operand) == Ok::<i64, CfgRuntimeError>(v),
            Err(_) => false,
        },
        Err(e) => match run {
            Ok(_) => false,
            Err(f) => same_failure(e, f),
        },
    }
}

/// Whether an operand is a constant or a value numbered below `bound`.
pub open spec fn operand_below(operand: Operand, bound: int) -> bool {
    operand matches Operand::Value(id) ==> (id as int) < bound
}

/// Whether every definition stands for a constant or a value numbered below `bound`.
pub open spec fn definitions_below(definitions: Seq<(SymbolId, Operand)>, bound: int) -> bool {
    forall|i: int| 0 <= i < definitions.len() ==> operand_below(#[trigger] definitions[i].1, bound)
}

/// Whether the definitions give, under the computed `values`, the value `env` gives each symbol.
pub open spec fn agrees(env: Map<SymbolId, i64>, definitions: Seq<(SymbolId, Operand)>, values: Map<ValueId, i64>) -> bool {
    forall|symbol: SymbolId|
        #[trigger] env.contains_key(symbol) ==> lookup_definition(definitions, symbol) is Some && resolve_spec(
            values,
            lookup_definition(definitions, symbol).unwrap(),
        ) == Ok::<i64, CfgRuntimeError>(env[symbol])
}

/// The instructions lowering added to the block being filled between `s` and `t`.
pub open spec fn added_code(s: BuildState, t: BuildState) -> Seq<SpecInstruction> {
    t.blocks[t.current].instructions.subrange(
        s.blocks[s.current].instructions.len() as int,
        t.blocks[t.current].instructions.len() as int,
    )
}

/// Whether every instruction is a binary operation whose result is numbered in `[lo, hi)`.
pub open spec fn fresh_binaries(code: Seq<SpecInstruction>, lo: int, hi: int) -> bool {
    forall|k: int|
        0 <= k < code.len() ==> (#[trigger] code[k]) is Binary && lo <= code[k]->Binary_result as int && (
        code[k]->Binary_result as int) < hi
}

proof fn lemma_lookup_below(definitions: Seq<(SymbolId, Operand)>, symbol: SymbolId, bound: int)
    requires
        definitions_below(definitions, bound),
    ensures
        lookup_definition(definitions, symbol) matches Some(o) ==> operand_below(o, bound),
{
    lemma_definition_index(definitions, symbol);
    if let Some(i) = definition_index(definitions, symbol) {
        assert(operand_below(definitions[i].1, bound));
    }
}

/// Lowering an expression adds binary operations with fresh results to the block being filled, and
/// changes nothing else but the next value.
proof fn lemma_expr_code(s: BuildState, e: TypedExpr)
    requires
        build_state_wf(s),
        definitions_below(s.definitions, s.next_value),
        build_expr_spec(s, e).0.next_value <= u32::MAX,
    ensures
        ({
            let (t, o) = build_expr_spec(s, e);
            let n0 = s.blocks[s.current].instructions.len() as int;
            &&& build_state_wf(t)
            &&& t.current == s.current
            &&& t.definitions == s.definitions
            &&& t.blocks.len() == s.blocks.len()
            &&& s.next_value <= t.next_value
            &&& n0 <= t.blocks[t.current].instructions.len()
            &&& t.blocks[t.current].instructions.subrange(0, n0) == s.blocks[s.current].instructions
            &&& t.blocks[t.current].terminator == s.blocks[s.current].terminator
            &&& fresh_binaries(added_code(s, t), s.next_value, t.next_value)
            &&& operand_below(o, t.next_value)
        }),
    decreases e,
{
    let (t, o) = build_expr_spec(s, e);
    let n0 = s.blocks[s.current].instructions.len() as int;
    match e {
        TypedExpr::Symbol { symbol_id, .. } => {
            lemma_lookup_below(s.definitions, symbol_id, s.next_value);
            assert(s.blocks[s.current].instructions.subrange(0, n0) =~= s.blocks[s.current].instructions);
        },
        TypedExpr::Binary { left, op, right, .. } => {
            crate::cfg::lemma_build_expr_grows(s, *left);
            let (s1, l) = build_expr_spec(s, *left);
            crate::cfg::lemma_build_expr_grows(s1, *right);
            let (s2, r) = build_expr_spec(s1, *right);
            lemma_expr_code(s, *left);
            assert(definitions_below(s1.definitions, s1.next_value)) by {
                assert forall|i: int| 0 <= i < s1.definitions.len() implies operand_below(
                    #[trigger] s1.definitions[i].1,
                    s1.next_value,
                ) by {
                    assert(operand_below(s.definitions[i].1, s.next_value));
                }
            }
            lemma_expr_code(s1, *right);
            let res = s2.next_value;
            let bin = SpecInstruction::Binary { result: res as ValueId, op, left: l, right: r };
            let c = s.current;
            let i0 = s.blocks[c].instructions;
            let i1 = s1.blocks[c].instructions;
            let i2 = s2.blocks[c].instructions;
            let it = t.blocks[c].instructions;
            assert(it == i2.push(bin));
            assert(it.subrange(0, n0) =~= i0) by {
                assert(i1.subrange(0, n0) == i0);
                assert forall|k: int| 0 <= k < n0 implies it[k] == i0[k] by {
                    assert(it[k] == i2[k]);
                    assert(i2[k] == i2.subrange(0, i1.len() as int)[k]);
                    assert(i1[k] == i1.subrange(0, n0)[k]);
                }
            }
            let code = added_code(s, t);
            let code_l = added_code(s, s1);
            let code_r = added_code(s1, s2);
            assert forall|k: int| 0 <= k < code.len() implies (#[trigger] code[k]) is Binary && s.next_value
                <= code[k]->Binary_result as int && (code[k]->Binary_result as int) < t.next_value by {
                if k < code_l.len() {
                    assert(code[k] == it[n0 + k]);
                    assert(it[n0 + k] == i2[n0 + k]);
                    assert(i2[n0 + k] == i2.subrange(0, i1.len() as int)[n0 + k]);
                    assert(i1[n0 + k] == code_l[k]);
                    assert(code_l[k] is Binary);
                } else if k < code_l.len() + code_r.len() {
                    let j = k - code_l.len();
                    assert(code[k] == it[n0 + k]);
                    assert(it[n0 + k] == i2[i1.len() + j]);
                    assert(i2[i1.len() + j] == code_r[j]);
                    assert(code_r[j] is Binary);
                } else {
                    assert(code[k] == it[i2.len() as int]);
                }
            }
        },
        _ => {
            assert(s.blocks[s.current].instructions.subrange(0, n0) =~= s.blocks[s.current].instructions);
            assert(added_code(s, t) =~= Seq::<SpecInstruction>::empty());
        },
    }
}

/// Running two pieces of code one after the other.
proof fn lemma_run_concat(a: Seq<SpecInstruction>, b: Seq<SpecInstruction>, k: int, values: Map<ValueId, i64>)
    requires
        0 <= k <= a.len(),
    ensures
        run_instructions(a + b, k, values) == match run_instructions(a, k, values) {
            Ok(after) => run_instructions(b, 0, after),
            Err(e) => Err(e),
        },
    decreases a.len() - k,
{
    let ab = a + b;
    if k == a.len() {
        lemma_run_shift(a, b, 0, values);
    } else {
        assert(ab[k] == a[k]);
        match a[k] {
            SpecInstruction::Binary { result, op, left, right } => {
                if let Ok(l) = resolve_spec(values, left) {
                    if let Ok(r) = resolve_spec(values, right) {
                        if let Ok(v) = binary_spec(op, l, r) {
                            lemma_run_concat(a, b, k + 1, values.insert(result, v));
                        }
                    }
                }
            },
            _ => {
                lemma_run_concat(a, b, k + 1, values);
            },
        }
    }
}

proof fn lemma_run_shift(a: Seq<SpecInstruction>, b: Seq<SpecInstruction>, j: int, values: Map<ValueId, i64>)
    requires
        0 <= j <= b.len(),
    ensures
        run_instructions(a + b, a.len() + j, values) == run_instructions(b, j, values),
    decreases b.len() - j,
{
    let ab = a + b;
    if j < b.len() {
        assert(ab[a.len() + j] == b[j]);
        match b[j] {
            SpecInstruction::Binary { result, op, left, right } => {
                if let Ok(l) = resolve_spec(values, left) {
                    if let Ok(r) = resolve_spec(values, right) {
                        if let Ok(v) = binary_spec(op, l, r) {
                            lemma_run_shift(a, b, j + 1, values.insert(result, v));
                        }
                    }
                }
            },
            _ => {
                lemma_run_shift(a, b, j + 1, values);
            },
        }
    }
}

/// Code computing only fresh values leaves the values numbered below them as they were.
proof fn lemma_run_keeps_older(code: Seq<SpecInstruction>, k: int, values: Map<ValueId, i64>, lo: int, hi: int, o: Operand)
    requires
        0 <= k <= code.len(),
        fresh_binaries(code, lo, hi),
        operand_below(o, lo),
    ensures
        run_instructions(code, k, values) matches Ok(after) ==> resolve_spec(after, o) == resolve_spec(values, o),
    decreases code.len() - k,
{
    if k < code.len() {
        assert(code[k] is Binary);
        match code[k] {
            SpecInstruction::Binary { result, op, left, right } => {
                if let Ok(l) = resolve_spec(values, left) {
                    if let Ok(r) = resolve_spec(values, right) {
                        if let Ok(v) = binary_spec(op, l, r) {
                            lemma_run_keeps_older(code, k + 1, values.insert(result, v), lo, hi, o);
                        }
                    }
                }
            },
            _ => {},
        }
    }
}

/// The graph builder and the linear form agree on every expression: running the code the builder
/// adds for it, from values under which the builder's definitions give each symbol the value the
/// linear interpreter holds for it, leaves the expression's operand holding exactly the value the
/// linear interpreter computes, or stops with the same division by zero or overflow.
pub proof fn lemma_expression_lowerings_agree(
    s: BuildState,
    e: TypedExpr,
    env: Map<SymbolId, i64>,
    values: Map<ValueId, i64>,
)
    requires
        build_state_wf(s),
        definitions_below(s.definitions, s.next_value),
        build_expr_spec(s, e).0.next_value <= u32::MAX,
        expr_scoped(env.dom(), e),
        agrees(env, s.definitions, values),
    ensures
        outcome_agrees(
            eval_ir_spec(env, lower_expr_spec(e)),
            run_instructions(added_code(s, build_expr_spec(s, e).0), 0, values),
            build_expr_spec(s, e).1,
        ),
    decreases e,
{
    let (t, o) = build_expr_spec(s, e);
    lemma_expr_code(s, e);
    match e {
        TypedExpr::Symbol { symbol_id, .. } => {
            assert(env.contains_key(symbol_id));
            assert(added_code(s, t) =~= Seq::<SpecInstruction>::empty());
        },
        TypedExpr::Binary { left, op, right, .. } => {
            crate::cfg::lemma_build_expr_grows(s, *left);
            let (s1, l) = build_expr_spec(s, *left);
            crate::cfg::lemma_build_expr_grows(s1, *right);
            let (s2, r) = build_expr_spec(s1, *right);
            lemma_expr_code(s, *left);
            assert(definitions_below(s1.definitions, s1.next_value)) by {
                assert forall|i: int| 0 <= i < s1.definitions.len() implies operand_below(
                    #[trigger] s1.definitions[i].1,
                    s1.next_value,
                ) by {
                    assert(operand_below(s.definitions[i].1, s.next_value));
                }
            }
            lemma_expr_code(s1, *right);
            let c = s.current;
            let n0 = s.blocks[c].instructions.len() as int;
            let i1 = s1.blocks[c].instructions;
            let i2 = s2.blocks[c].instructions;
            let res = s2.next_value;
            let bin = SpecInstruction::Binary { result: res as ValueId, op, left: l, right: r };
            let code_l = added_code(s, s1);
            let code_r = added_code(s1, s2);
            let code = added_code(s, t);
            assert(t.blocks[c].instructions == i2.push(bin));
            assert(code =~= code_l + (code_r + seq![bin])) by {
                assert(i1.subrange(0, n0) == s.blocks[c].instructions);
                assert(i2.subrange(0, i1.len() as int) == i1);
                assert forall|k: int| 0 <= k < code.len() implies code[k] == (code_l + (code_r + seq![bin]))[k] by {
                    if k < code_l.len() {
                        assert(i2[n0 + k] == i1[n0 + k]);
                    } else if k < code_l.len() + code_r.len() {
                    } else {
                    }
                }
            }
            lemma_run_concat(code_l, code_r + seq![bin], 0, values);
            lemma_expression_lowerings_agree(s, *left, env, values);
            let el = eval_ir_spec(env, lower_expr_spec(*left));
            assert(lower_expr_spec(e) matches crate::ir::IrValue::Binary { left: ll, op: lop, right: lr, .. } && *ll
                == lower_expr_spec(*left) && *lr == lower_expr_spec(*right) && lop == op);
            if let Ok(lv) = el {
                let v1 = run_instructions(code_l, 0, values).unwrap();
                assert(agrees(env, s1.definitions, v1)) by {
                    assert forall|symbol: SymbolId| #[trigger] env.contains_key(symbol) implies lookup_definition(
                        s1.definitions,
                        symbol,
                    ) is Some && resolve_spec(v1, lookup_definition(s1.definitions, symbol).unwrap())
                        == Ok::<i64, CfgRuntimeError>(env[symbol]) by {
                        let od = lookup_definition(s.definitions, symbol).unwrap();
                        lemma_lookup_below(s.definitions, symbol, s.next_value);
                        lemma_run_keeps_older(code_l, 0, values, s.next_value, s1.next_value, od);
                    }
                }
                lemma_run_concat(code_r, seq![bin], 0, v1);
                lemma_expression_lowerings_agree(s1, *right, env, v1);
                let er = eval_ir_spec(env, lower_expr_spec(*right));
                if let Ok(rv) = er {
                    let v2 = run_instructions(code_r, 0, v1).unwrap();
                    lemma_run_keeps_older(code_r, 0, v1, s1.next_value, s2.next_value, l);
                    assert(resolve_spec(v2, l) == Ok::<i64, CfgRuntimeError>(lv));
                    assert(resolve_spec(v2, r) == Ok::<i64, CfgRuntimeError>(rv));
                    let single = seq![bin];
                    assert(single[0] == bin);
                    crate::meaning_laws::lemma_interpreters_evaluate_meaning(op, lv, rv);
                    if let Ok(v) = binary_spec(op, lv, rv) {
                        assert(run_instructions(single, 1, v2.insert(res as ValueId, v)) == Ok::<
                            Map<ValueId, i64>,
                            CfgRuntimeError,
                        >(v2.insert(res as ValueId, v)));
                    }
                }
            }
        },
        _ => {
            assert(added_code(s, t) =~= Seq::<SpecInstruction>::empty());
        },
    }
}

/// Defining a symbol makes it stand for the new operand and leaves every other symbol alone.
proof fn lemma_define_lookup(definitions: Seq<(SymbolId, Operand)>, symbol: SymbolId, operand: Operand, other: SymbolId)
    ensures
        lookup_definition(define_spec(definitions, symbol, operand), symbol) == Some(operand),
        other != symbol ==> lookup_definition(define_spec(definitions, symbol, operand), other) == lookup_definition(
            definitions,
            other,
        ),
{
    let d2 = define_spec(definitions, symbol, operand);
    lemma_definition_index(definitions, symbol);
    lemma_definition_index(definitions, other);
    lemma_definition_index(d2, symbol);
    lemma_definition_index(d2, other);
    match definition_index(definitions, symbol) {
        Some(i) => {
            assert(forall|j: int| 0 <= j < d2.len() ==> #[trigger] d2[j].0 == definitions[j].0);
            match definition_index(d2, symbol) {
                Some(k) => {
                    if k < i {
                        assert(definitions[k].0 == symbol);
                    } else if k > i {
                        assert(d2[i].0 == symbol);
                    }
                },
                None => {
                    assert(d2[i].0 == symbol);
                },
            }
            if other != symbol {
                match (definition_index(definitions, other), definition_index(d2, other)) {
                    (Some(a), Some(b)) => {
                        if a < b {
                            assert(d2[a].0 == other);
                        } else if b < a {
                            assert(definitions[b].0 == other);
                        }
                    },
                    (Some(a), None) => {
                        assert(d2[a].0 == other);
                    },
                    (None, Some(b)) => {
                        assert(definitions[b].0 == other);
                    },
                    (None, None) => {},
                }
            }
        },
        None => {
            let n = definitions.len() as int;
            assert(forall|j: int| 0 <= j < n ==> #[trigger] d2[j] == definitions[j]);
            match definition_index(d2, symbol) {
                Some(k) => {
                    if k < n {
                        assert(definitions[k].0 == symbol);
                    }
                },
                None => {
                    assert(d2[n].0 == symbol);
                },
            }
            if other != symbol {
                match (definition_index(definitions, other), definition_index(d2, other)) {
                    (Some(a), Some(b)) => {
                        if a < b {
                            assert(d2[a].0 == other);
                        } else if b < a {
                            assert(definitions[b].0 == other);
                        }
                    },
                    (Some(a), None) => {
                        assert(d2[a].0 == other);
                    },
                    (None, Some(b)) => {
                        if b < n {
                            assert(definitions[b].0 == other);
                        }
                    },
                    (None, None) => {},
                }
            }
        },
    }
}

proof fn lemma_define_below(definitions: Seq<(SymbolId, Operand)>, symbol: SymbolId, operand: Operand, bound: int)
    requires
        definitions_below(definitions, bound),
        operand_below(operand, bound),
    ensures
        definitions_below(define_spec(definitions, symbol, operand), bound),
{
    let d2 = define_spec(definitions, symbol, operand);
    lemma_definition_index(definitions, symbol);
    assert forall|i: int| 0 <= i < d2.len() implies operand_below(#[trigger] d2[i].1, bound) by {
        match definition_index(definitions, symbol) {
            Some(k) => {
                if i != k {
                    assert(d2[i] == definitions[i]);
                    assert(operand_below(definitions[i].1, bound));
                }
            },
            None => {
                if i < definitions.len() {
                    assert(d2[i] == definitions[i]);
                    assert(operand_below(definitions[i].1, bound));
                }
            },
        }
    }
}

/// What the graph's block being filled gives when run from nothing computed: the value of its
/// `return`, the failure of one of its operations, or `MissingReturn` without a return.
pub open spec fn block_outcome(t: BuildState) -> Result<i64, CfgRuntimeError> {
    match run_instructions(t.blocks[t.current].instructions, 0, Map::empty()) {
        Err(e) => Err(e),
        Ok(after) => match t.blocks[t.current].terminator {
            Some(Terminator::Return(o)) => resolve_spec(after, o),
            _ => Err(CfgRuntimeError::MissingReturn),
        },
    }
}

/// Whether the two interpreters' outcomes are the same: the same value, the same arithmetic
/// failure, or both a missing `return`.
pub open spec fn same_outcome(linear: Result<i64, RuntimeError>, graph: Result<i64, CfgRuntimeError>) -> bool {
    match linear {
        Ok(v) => graph == Ok::<i64, CfgRuntimeError>(v),
        Err(e) => match graph {
            Ok(_) => false,
            Err(f) => same_failure(e, f) || (e == RuntimeError::MissingReturn && f == CfgRuntimeError::MissingReturn),
        },
    }
}

/// The invariant of lowering a straight-line block into the block being filled: running what is
/// there so far gives `values`, under which the definitions give each symbol its value in `env`.
pub open spec fn lowering_agrees(s: BuildState, env: Map<SymbolId, i64>, values: Map<ValueId, i64>) -> bool {
    &&& build_state_wf(s)
    &&& s.blocks[s.current].terminator is None
    &&& definitions_below(s.definitions, s.next_value)
    &&& run_instructions(s.blocks[s.current].instructions, 0, Map::empty()) == Ok::<
        Map<ValueId, i64>,
        CfgRuntimeError,
    >(values)
    &&& agrees(env, s.definitions, values)
}

/// Lowering more straight-line statements only extends the block being filled.
proof fn lemma_statements_extend(s: BuildState, statements: Seq<SpecTypedStatement>)
    requires
        build_state_wf(s),
        definitions_below(s.definitions, s.next_value),
        branch_free(statements),
        build_statements_spec(s, statements).next_value <= u32::MAX,
    ensures
        ({
            let t = build_statements_spec(s, statements);
            let n0 = s.blocks[s.current].instructions.len() as int;
            &&& t.current == s.current
            &&& t.blocks.len() == s.blocks.len()
            &&& n0 <= t.blocks[t.current].instructions.len()
            &&& t.blocks[t.current].instructions.subrange(0, n0) == s.blocks[s.current].instructions
            &&& (forall|k: int| 0 <= k < n0 ==> !(#[trigger] s.blocks[s.current].instructions[k] is Phi)) ==> forall|k: int|
                0 <= k < t.blocks[t.current].instructions.len() ==> !(#[trigger] t.blocks[t.current].instructions[k] is Phi)
            &&& s.blocks[s.current].terminator is None ==> (t.blocks[t.current].terminator is None
                || t.blocks[t.current].terminator matches Some(Terminator::Return(_)))
        }),
    decreases statements.len(),
{
    let t = build_statements_spec(s, statements);
    let c = s.current;
    let n0 = s.blocks[c].instructions.len() as int;
    if statements.len() == 0 || s.blocks[c].terminator is Some {
        assert(s.blocks[c].instructions.subrange(0, n0) =~= s.blocks[c].instructions);
    } else {
        let rest = statements.subrange(1, statements.len() as int);
        assert(branch_free(rest)) by {
            assert forall|i: int| 0 <= i < rest.len() implies !(#[trigger] rest[i] is If) by {
                assert(rest[i] == statements[i + 1]);
            }
        }
        assert(!(statements[0] is If));
        let after = crate::cfg::build_statement_spec(s, statements[0]);
        crate::cfg::lemma_build_statement_grows(s, statements[0]);
        crate::cfg::lemma_build_statements_grows(after, rest);
        match statements[0] {
            SpecTypedStatement::Return { value } => {
                lemma_expr_code(s, value);
                let (s1, o) = build_expr_spec(s, value);
                assert(after == with_terminator(s1, s1.current, Terminator::Return(o)));
                assert(t == after);
                assert(after.blocks[c].instructions == s1.blocks[c].instructions);
                let code = added_code(s, s1);
                assert forall|k: int| 0 <= k < t.blocks[c].instructions.len() && (forall|j: int| 0 <= j < n0 ==> !(#[trigger] s.blocks[c].instructions[j] is Phi)) implies !(
                #[trigger] t.blocks[c].instructions[k] is Phi) by {
                    if k < n0 {
                        assert(t.blocks[c].instructions.subrange(0, n0)[k] == t.blocks[c].instructions[k]);
                    } else {
                        assert(code[k - n0] == t.blocks[c].instructions[k]);
                        assert(code[k - n0] is Binary);
                    }
                }
            },
            SpecTypedStatement::Let { symbol, value } | SpecTypedStatement::Assign { symbol, value } => {
                lemma_expr_code(s, value);
                let (s1, o) = build_expr_spec(s, value);
                let bind = SpecInstruction::Bind { symbol_id: symbol.spec_id(), value: o };
                lemma_define_below(s1.definitions, symbol.spec_id(), o, s1.next_value);
                assert(definitions_below(s1.definitions, s1.next_value)) by {
                    assert forall|i: int| 0 <= i < s1.definitions.len() implies operand_below(
                        #[trigger] s1.definitions[i].1,
                        s1.next_value,
                    ) by {
                        assert(operand_below(s.definitions[i].1, s.next_value));
                    }
                }
                lemma_statements_extend(after, rest);
                let ia = after.blocks[c].instructions;
                let it = t.blocks[c].instructions;
                assert(ia == s1.blocks[c].instructions.push(bind));
                assert forall|k: int| 0 <= k < n0 implies it[k] == s.blocks[c].instructions[k] by {
                    assert(it[k] == it.subrange(0, ia.len() as int)[k]);
                    assert(ia[k] == s1.blocks[c].instructions[k]);
                    assert(s1.blocks[c].instructions[k] == s1.blocks[c].instructions.subrange(0, n0)[k]);
                }
                assert(it.subrange(0, n0) =~= s.blocks[c].instructions);
                let code = added_code(s, s1);
                if forall|j: int| 0 <= j < n0 ==> !(#[trigger] s.blocks[c].instructions[j] is Phi) {
                    assert forall|k: int| 0 <= k < ia.len() implies !(#[trigger] ia[k] is Phi) by {
                        if k < n0 {
                            assert(s1.blocks[c].instructions.subrange(0, n0)[k] == ia[k]);
                        } else if k < n0 + code.len() {
                            assert(code[k - n0] == ia[k]);
                            assert(code[k - n0] is Binary);
                        }
                    }
                }
            },
            _ => {},
        }
    }
}

/// The graph builder and the linear form agree on every straight-line block: the block the
/// builder fills, run from nothing computed, gives the value the linear interpreter returns, or
/// the same arithmetic failure, or both lack a `return`.
proof fn lemma_statements_agree(
    s: BuildState,
    statements: Seq<SpecTypedStatement>,
    env: Map<SymbolId, i64>,
    values: Map<ValueId, i64>,
)
    requires
        lowering_agrees(s, env, values),
        branch_free(statements),
        block_scoped(env.dom(), statements),
        build_statements_spec(s, statements).next_value <= u32::MAX,
    ensures
        same_outcome(
            run_ir_spec(env, statements.map_values(|x: SpecTypedStatement| lower_statement_spec(x))).0,
            block_outcome(build_statements_spec(s, statements)),
        ),
    decreases statements.len(),
{
    let lowered = statements.map_values(|x: SpecTypedStatement| lower_statement_spec(x));
    let c = s.current;
    let t = build_statements_spec(s, statements);
    if statements.len() == 0 {
        return;
    }
    let rest = statements.subrange(1, statements.len() as int);
    assert(branch_free(rest)) by {
        assert forall|i: int| 0 <= i < rest.len() implies !(#[trigger] rest[i] is If) by {
            assert(rest[i] == statements[i + 1]);
        }
    }
    assert(!(statements[0] is If));
    assert(crate::cfg::statement_scoped(env.dom(), statements[0]));
    let after = crate::cfg::build_statement_spec(s, statements[0]);
    assert(t == build_statements_spec(after, rest));
    crate::cfg::lemma_build_statement_grows(s, statements[0]);
    crate::cfg::lemma_build_statements_grows(after, rest);
    assert(lowered[0] == lower_statement_spec(statements[0]));
    assert(lowered.subrange(1, lowered.len() as int) =~= rest.map_values(
        |x: SpecTypedStatement| lower_statement_spec(x),
    ));
    let n0 = s.blocks[c].instructions.len() as int;
    match statements[0] {
        SpecTypedStatement::Return { value } => {
            crate::cfg::lemma_build_expr_grows(s, value);
            lemma_expr_code(s, value);
            let (s1, o) = build_expr_spec(s, value);
            assert(after == with_terminator(s1, s1.current, Terminator::Return(o)));
            assert(t == after);
            let code = added_code(s, s1);
            let it = s1.blocks[c].instructions;
            assert(it =~= s.blocks[c].instructions + code) by {
                assert forall|k: int| 0 <= k < n0 implies it[k] == s.blocks[c].instructions[k] by {
                    assert(it.subrange(0, n0)[k] == it[k]);
                }
            }
            assert(after.blocks[c].instructions == it);
            lemma_run_concat(s.blocks[c].instructions, code, 0, Map::empty());
            lemma_expression_lowerings_agree(s, value, env, values);
        },
        SpecTypedStatement::Let { symbol, value } | SpecTypedStatement::Assign { symbol, value } => {
            crate::cfg::lemma_build_expr_grows(s, value);
            lemma_expr_code(s, value);
            let (s1, o) = build_expr_spec(s, value);
            let id = symbol.spec_id();
            let bind = SpecInstruction::Bind { symbol_id: id, value: o };
            let defs2 = define_spec(s1.definitions, id, o);
            assert(after == with_definitions(with_instruction(s1, bind), defs2));
            let code = added_code(s, s1);
            let it = s1.blocks[c].instructions;
            assert(it =~= s.blocks[c].instructions + code) by {
                assert forall|k: int| 0 <= k < n0 implies it[k] == s.blocks[c].instructions[k] by {
                    assert(it.subrange(0, n0)[k] == it[k]);
                }
            }
            let ia = after.blocks[c].instructions;
            assert(ia == it.push(bind));
            assert(ia =~= (s.blocks[c].instructions + code) + seq![bind]);
            lemma_run_concat(s.blocks[c].instructions, code, 0, Map::empty());
            lemma_run_concat(s.blocks[c].instructions + code, seq![bind], 0, Map::empty());
            lemma_expression_lowerings_agree(s, value, env, values);
            assert(definitions_below(s1.definitions, s1.next_value)) by {
                assert forall|i: int| 0 <= i < s1.definitions.len() implies operand_below(
                    #[trigger] s1.definitions[i].1,
                    s1.next_value,
                ) by {
                    assert(operand_below(s.definitions[i].1, s.next_value));
                }
            }
            lemma_define_below(s1.definitions, id, o, s1.next_value);
            lemma_statements_extend(after, rest);
            let tt = t.blocks[c].instructions;
            let na = ia.len() as int;
            assert(tt =~= ia + tt.subrange(na, tt.len() as int)) by {
                assert forall|k: int| 0 <= k < na implies tt[k] == ia[k] by {
                    assert(tt.subrange(0, na)[k] == tt[k]);
                }
            }
            lemma_run_concat(ia, tt.subrange(na, tt.len() as int), 0, Map::empty());
            match eval_ir_spec(env, lower_expr_spec(value)) {
                Err(e) => {},
                Ok(v) => {
                    let values2 = run_instructions(code, 0, values).unwrap();
                    assert(run_instructions(seq![bind], 0, values2) == Ok::<Map<ValueId, i64>, CfgRuntimeError>(values2)) by {
                        assert(seq![bind][0] == bind);
                        assert(run_instructions(seq![bind], 1, values2) == Ok::<Map<ValueId, i64>, CfgRuntimeError>(values2));
                    }
                    let env2 = env.insert(id, v);
                    assert(agrees(env2, defs2, values2)) by {
                        assert forall|x: SymbolId| #[trigger] env2.contains_key(x) implies lookup_definition(
                            defs2,
                            x,
                        ) is Some && resolve_spec(values2, lookup_definition(defs2, x).unwrap()) == Ok::<
                            i64,
                            CfgRuntimeError,
                        >(env2[x]) by {
                            lemma_define_lookup(s1.definitions, id, o, x);
                            if x != id {
                                assert(env.contains_key(x));
                                let od = lookup_definition(s.definitions, x).unwrap();
                                lemma_lookup_below(s.definitions, x, s.next_value);
                                lemma_run_keeps_older(code, 0, values, s.next_value, s1.next_value, od);
                            }
                        }
                    }
                    assert(env2.dom() =~= env.dom().insert(id));
                    assert(block_scoped(env.dom().insert(id), rest));
                    assert(lowering_agrees(after, env2, values2));
                    lemma_statements_agree(after, rest, env2, values2);
                },
            }
        },
        _ => {},
    }
}

/// A straight-line program means the same to both back ends: running the control-flow graph the
/// builder makes of it gives the value that running its linear form returns, or stops with the
/// same division by zero or overflow, or both find no `return`. (Every checked straight-line
/// program binds each symbol before reading it.)
pub proof fn lemma_straight_line_graph_agrees(statements: Seq<SpecTypedStatement>)
    requires
        fits(build_statements_spec(initial_build_state(), statements)),
        branch_free(statements),
        block_scoped(Set::empty(), statements),
    ensures
        same_outcome(
            run_ir_spec(Map::empty(), statements.map_values(|x: SpecTypedStatement| lower_statement_spec(x))).0,
            execute_spec(built_graph(statements)),
        ),
{
    let init = initial_build_state();
    let env = Map::<SymbolId, i64>::empty();
    let values = Map::<ValueId, i64>::empty();
    assert(build_state_wf(init));
    assert(run_instructions(init.blocks[0].instructions, 0, values) == Ok::<Map<ValueId, i64>, CfgRuntimeError>(values));
    assert(lowering_agrees(init, env, values));
    assert(env.dom() =~= Set::<SymbolId>::empty());
    lemma_statements_agree(init, statements, env, values);
    lemma_statements_extend(init, statements);
    let t = build_statements_spec(init, statements);
    let b0 = t.blocks[0];
    assert(t.blocks =~= seq![b0]);
    let raw = SpecCfg { entry: 0, blocks: t.blocks };
    crate::cfg::lemma_entry_reachable(raw);
    assert(reachable_set(raw).contains(0));
    crate::cfg::lemma_build_statements_grows(init, statements);
    assert(b0.id == 0);
    assert(t.blocks.drop_last() =~= Seq::<crate::cfg::SpecBlock>::empty());
    assert(t.blocks.last() == b0);
    assert(keep_blocks(t.blocks.drop_last(), reachable_set(raw)) =~= Seq::<crate::cfg::SpecBlock>::empty());
    assert(keep_blocks(t.blocks, reachable_set(raw)) == keep_blocks(t.blocks.drop_last(), reachable_set(raw)).push(b0));
    assert(keep_blocks(t.blocks, reachable_set(raw)) =~= seq![b0]);
    let p = prune_spec(raw);
    let g = built_graph(statements);
    let b = simplify_block_spec(p, b0);
    assert(g.blocks =~= seq![b]);
    assert(b.instructions =~= b0.instructions) by {
        assert forall|k: int| 0 <= k < b0.instructions.len() implies b.instructions[k] == b0.instructions[k] by {
            assert(!(b0.instructions[k] is Phi));
        }
    }
    assert(crate::cfg::find_block(g.blocks, 0) == Some(0int));
    crate::value_laws::lemma_no_phis(b.instructions, 0, None, values);
    assert(record(values, Seq::empty()) == values);
    assert(block_values(b, None, values) == run_instructions(b0.instructions, 0, values));
    assert(step_limit() > 0);
    assert(execute_spec(g) == run_spec(g, step_limit(), 0, None, values));
    assert(execute_spec(g) == block_outcome(t));
}

} // verus!
