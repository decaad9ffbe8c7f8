use vstd::prelude::*;

use crate::ast::{binary_value, BinaryOp};
use crate::types::SymbolId;
use crate::ir::{IrInstruction, IrValue};
use crate::runtime::{eval_ir_spec, operand_value, run_binary, run_ir_spec, run_ssa_spec, RuntimeError};
use crate::ssa::{
    binary_count, instruction_value, instructions_binary_count, instructions_bound, lower_instructions_spec,
    lower_value_spec, value_bound, lemma_lower_value_next,
    constant_fold_spec, copy_propagate_spec, dead_code_spec, mark_operand_spec, optimize_spec,
    resolve_constant_spec, resolve_copy_spec, Operand, SsaInstruction, ValueId,
};

verus! {

/// Whether the instructions return the constant `v` at position `r` after only copies of
/// constants.
pub open spec fn returns_constant_at(s: Seq<SsaInstruction>, r: int, v: i64) -> bool {
    &&& 0 <= r < s.len()
    &&& s[r] == SsaInstruction::Return { value: Operand::Constant(v) }
    &&& forall|k: int| 0 <= k < r ==> (#[trigger] s[k]) matches SsaInstruction::Copy { source: Operand::Constant(_), .. }
}

/// Whether the instructions, run from any values, return the constant `v` without error.
pub open spec fn returns_constant(s: Seq<SsaInstruction>, v: i64) -> bool {
    exists|r: int| returns_constant_at(s, r, v)
}

proof fn lemma_returns_constant_tail(s: Seq<SsaInstruction>, r: int, v: i64)
    requires
        returns_constant_at(s, r, v),
        r > 0,
    ensures
        returns_constant_at(s.subrange(1, s.len() as int), r - 1, v),
{
    let rest = s.subrange(1, s.len() as int);
    assert forall|k: int| 0 <= k < r - 1 implies (#[trigger] rest[k]) matches SsaInstruction::Copy {
        source: Operand::Constant(_),
        ..
    } by {
        assert(rest[k] == s[k + 1]);
    }
}

proof fn lemma_returns_constant_cons(x: SsaInstruction, rest: Seq<SsaInstruction>, r: int, v: i64)
    requires
        returns_constant_at(rest, r, v),
        x matches SsaInstruction::Copy { source: Operand::Constant(_), .. },
    ensures
        returns_constant_at(seq![x] + rest, r + 1, v),
{
    let s = seq![x] + rest;
    assert forall|k: int| 0 <= k < r + 1 implies (#[trigger] s[k]) matches SsaInstruction::Copy {
        source: Operand::Constant(_),
        ..
    } by {
        if k > 0 {
            assert(s[k] == rest[k - 1]);
        }
    }
    assert(s[r + 1] == rest[r]);
}

/// Instructions that return a constant after copies of constants return it from any values.
proof fn lemma_run_returns_constant(env: Map<ValueId, i64>, s: Seq<SsaInstruction>, r: int, v: i64)
    requires
        returns_constant_at(s, r, v),
    ensures
        run_ssa_spec(env, s).0 == Ok::<i64, RuntimeError>(v),
    decreases r,
{
    if r > 0 {
        assert(s[0] matches SsaInstruction::Copy { source: Operand::Constant(_), .. });
        lemma_returns_constant_tail(s, r, v);
        match s[0] {
            SsaInstruction::Copy { result, source: Operand::Constant(c) } => {
                lemma_run_returns_constant(env.insert(result, c), s.subrange(1, s.len() as int), r - 1, v);
            },
            _ => {},
        }
    }
}

/// In a run that succeeds from values equal to the known constants, every operation folds:
/// the folded instructions return the same value after copies of constants.
proof fn lemma_fold_success(env: Map<ValueId, i64>, s: Seq<SsaInstruction>)
    requires
        run_ssa_spec(env, s).0 is Ok,
    ensures
        returns_constant(constant_fold_spec(env, s).0, run_ssa_spec(env, s).0.unwrap()),
    decreases s.len(),
{
    let rest = s.subrange(1, s.len() as int);
    let v = run_ssa_spec(env, s).0.unwrap();
    let out = constant_fold_spec(env, s).0;
    match s[0] {
        SsaInstruction::Binary { result, op, left, right } => {
            let l = operand_value(env, left).unwrap();
            let r = operand_value(env, right).unwrap();
            let w = run_binary(op, l, r).unwrap();
            assert(resolve_constant_spec(left, env) == Operand::Constant(l));
            assert(resolve_constant_spec(right, env) == Operand::Constant(r));
            assert(binary_value(op, l, r) == Some(w));
            lemma_fold_success(env.insert(result, w), rest);
            let tail = constant_fold_spec(env.insert(result, w), rest).0;
            let k = choose|k: int| returns_constant_at(tail, k, v);
            lemma_returns_constant_cons(SsaInstruction::Copy { result, source: Operand::Constant(w) }, tail, k, v);
        },
        SsaInstruction::Copy { result, source } => {
            let w = operand_value(env, source).unwrap();
            assert(resolve_constant_spec(source, env) == Operand::Constant(w));
            lemma_fold_success(env.insert(result, w), rest);
            let tail = constant_fold_spec(env.insert(result, w), rest).0;
            let k = choose|k: int| returns_constant_at(tail, k, v);
            lemma_returns_constant_cons(SsaInstruction::Copy { result, source: Operand::Constant(w) }, tail, k, v);
        },
        SsaInstruction::Return { value } => {
            assert(resolve_constant_spec(value, env) == Operand::Constant(v));
            assert(out[0] == SsaInstruction::Return { value: Operand::Constant(v) });
            assert(returns_constant_at(out, 0, v));
        },
    }
}

/// Copy propagation leaves copies of constants and returns of constants as they are.
proof fn lemma_propagate_keeps(copies: Map<ValueId, Operand>, s: Seq<SsaInstruction>, r: int, v: i64)
    requires
        returns_constant_at(s, r, v),
    ensures
        returns_constant_at(copy_propagate_spec(copies, s).0, r, v),
    decreases r,
{
    let rest = s.subrange(1, s.len() as int);
    if r == 0 {
        let out = copy_propagate_spec(copies, s).0;
        assert(out[0] == SsaInstruction::Return { value: Operand::Constant(v) });
    } else {
        assert(s[0] matches SsaInstruction::Copy { source: Operand::Constant(_), .. });
        lemma_returns_constant_tail(s, r, v);
        match s[0] {
            SsaInstruction::Copy { result, source: Operand::Constant(c) } => {
                let src = Operand::Constant(c);
                assert(resolve_copy_spec(copies, src, Set::empty()) == src);
                lemma_propagate_keeps(copies.insert(result, src), rest, r - 1, v);
                let tail = copy_propagate_spec(copies.insert(result, src), rest).0;
                lemma_returns_constant_cons(SsaInstruction::Copy { result, source: src }, tail, r - 1, v);
            },
            _ => {},
        }
    }
}

/// Dead-code elimination keeps a subsequence of the instructions, every return among them.
proof fn lemma_dead_code_elements(live: Set<ValueId>, s: Seq<SsaInstruction>, x: SsaInstruction)
    requires
        dead_code_spec(live, s).0.contains(x),
    ensures
        s.contains(x),
    decreases s.len(),
{
    let init = s.drop_last();
    let last = s.last();
    if s.len() > 0 {
        let next_live = match last {
            SsaInstruction::Return { value } => mark_operand_spec(value, live),
            SsaInstruction::Binary { result, left, right, .. } => if live.contains(result) {
                mark_operand_spec(right, mark_operand_spec(left, live.remove(result)))
            } else {
                live
            },
            SsaInstruction::Copy { result, source } => if live.contains(result) {
                mark_operand_spec(source, live.remove(result))
            } else {
                live
            },
        };
        let kept = dead_code_spec(next_live, init).0;
        if x == last {
            assert(s[s.len() - 1] == x);
        } else {
            let out = dead_code_spec(live, s).0;
            let k = choose|k: int| 0 <= k < out.len() && out[k] == x;
            if out != kept {
                assert(out == kept.push(last));
                assert(k < kept.len());
                assert(kept[k] == x);
            }
            assert(kept.contains(x));
            lemma_dead_code_elements(next_live, init, x);
            let i = choose|i: int| 0 <= i < init.len() && init[i] == x;
            assert(s[i] == x);
        }
    }
}

/// Dead-code elimination keeps the first return of a constant after copies of constants.
proof fn lemma_dead_code_keeps(live: Set<ValueId>, s: Seq<SsaInstruction>, r: int, v: i64)
    requires
        returns_constant_at(s, r, v),
    ensures
        returns_constant(dead_code_spec(live, s).0, v),
    decreases s.len(),
{
    let init = s.drop_last();
    let last = s.last();
    let next_live = match last {
        SsaInstruction::Return { value } => mark_operand_spec(value, live),
        SsaInstruction::Binary { result, left, right, .. } => if live.contains(result) {
            mark_operand_spec(right, mark_operand_spec(left, live.remove(result)))
        } else {
            live
        },
        SsaInstruction::Copy { result, source } => if live.contains(result) {
            mark_operand_spec(source, live.remove(result))
        } else {
            live
        },
    };
    let kept = dead_code_spec(next_live, init).0;
    let out = dead_code_spec(live, s).0;
    if r < s.len() - 1 {
        assert(returns_constant_at(init, r, v)) by {
            assert forall|k: int| 0 <= k < r implies (#[trigger] init[k]) matches SsaInstruction::Copy {
                source: Operand::Constant(_),
                ..
            } by {
                assert(init[k] == s[k]);
            }
            assert(init[r] == s[r]);
        }
        lemma_dead_code_keeps(next_live, init, r, v);
        let k = choose|k: int| returns_constant_at(kept, k, v);
        if out != kept {
            assert(out == kept.push(last));
            assert forall|i: int| 0 <= i < k implies (#[trigger] out[i]) matches SsaInstruction::Copy {
                source: Operand::Constant(_),
                ..
            } by {
                assert(out[i] == kept[i]);
            }
            assert(out[k] == kept[k]);
            assert(returns_constant_at(out, k, v));
        } else {
            assert(returns_constant_at(out, k, v));
        }
    } else {
        assert(last == SsaInstruction::Return { value: Operand::Constant(v) });
        assert(out == kept.push(last));
        assert forall|i: int| 0 <= i < kept.len() implies (#[trigger] out[i]) matches SsaInstruction::Copy {
            source: Operand::Constant(_),
            ..
        } by {
            assert(out[i] == kept[i]);
            assert(kept.contains(kept[i]));
            lemma_dead_code_elements(next_live, init, kept[i]);
            let j = choose|j: int| 0 <= j < init.len() && init[j] == kept[i];
            assert(init[j] == s[j]);
        }
        assert(out[kept.len() as int] == last);
        assert(returns_constant_at(out, kept.len() as int, v));
    }
}

/// The SSA optimizer preserves the value every successful run returns: if the program, run from
/// no values, returns a value, the optimized program returns the same value.
pub proof fn lemma_optimize_preserves_result(s: Seq<SsaInstruction>)
    requires
        run_ssa_spec(Map::empty(), s).0 is Ok,
    ensures
        run_ssa_spec(Map::empty(), optimize_spec(s).0).0 == run_ssa_spec(Map::empty(), s).0,
{
    let v = run_ssa_spec(Map::empty(), s).0.unwrap();
    lemma_fold_success(Map::empty(), s);
    let folded = constant_fold_spec(Map::empty(), s).0;
    let r = choose|r: int| returns_constant_at(folded, r, v);
    lemma_propagate_keeps(Map::empty(), folded, r, v);
    let propagated = copy_propagate_spec(Map::empty(), folded).0;
    lemma_dead_code_keeps(Set::empty(), propagated, r, v);
    let optimized = dead_code_spec(Set::empty(), propagated).0;
    let k = choose|k: int| returns_constant_at(optimized, k, v);
    lemma_run_returns_constant(Map::empty(), optimized, k, v);
}

/// Whether an operation on two `i64` values has no `i64` result: its exact value lies outside
/// the range of `i64`, or it divides by zero.
pub open spec fn overflows_or_divides_by_zero(op: BinaryOp, a: i64, b: i64) -> bool {
    match op {
        BinaryOp::Add => !(i64::MIN <= a + b <= i64::MAX),
        BinaryOp::Subtract => !(i64::MIN <= a - b <= i64::MAX),
        BinaryOp::Multiply => !(i64::MIN <= a * b <= i64::MAX),
        BinaryOp::Divide => b == 0 || (a == i64::MIN && b == -1),
        _ => false,
    }
}

/// An operation on constants is left unfolded only where it overflows or divides by zero.
pub proof fn lemma_unfolded_operation(op: BinaryOp, a: i64, b: i64)
    requires
        binary_value(op, a, b) is None,
    ensures
        overflows_or_divides_by_zero(op, a, b),
{
    if op is Divide && b != 0 {
        let x = a as int;
        let d = b as int;
        if x > 0 && d > 0 {
            assert(0 <= x / d <= x) by (nonlinear_arith)
                requires
                    x > 0,
                    d > 0,
            ;
        } else if x < 0 && d < 0 {
            assert(0 <= (x * -1) / (d * -1) <= x * -1) by (nonlinear_arith)
                requires
                    x < 0,
                    d < 0,
            ;
            if !(a == i64::MIN && b == -1) {
                assert((x * -1) / (d * -1) <= i64::MAX) by (nonlinear_arith)
                    requires
                        x < 0,
                        d < 0,
                        x >= -0x8000_0000_0000_0000,
                        x != -0x8000_0000_0000_0000 || d != -1,
                {
                    if d <= -2 {
                        assert((x * -1) / (d * -1) <= (x * -1) / 2);
                    }
                }
            }
        } else if x < 0 {
            assert(0 <= (x * -1) / d <= x * -1) by (nonlinear_arith)
                requires
                    x < 0,
                    d > 0,
            ;
        } else if x > 0 {
            assert(0 <= x / (d * -1) <= x) by (nonlinear_arith)
                requires
                    x > 0,
                    d < 0,
            ;
        }
    }
}

/// Whether every binary operation on two constants in `s` has no `i64` result.
pub open spec fn constant_operations_unfoldable(s: Seq<SsaInstruction>) -> bool {
    forall|i: int|
        0 <= i < s.len() ==> match #[trigger] s[i] {
            SsaInstruction::Binary { op, left: Operand::Constant(a), right: Operand::Constant(b), .. } =>
                binary_value(op, a, b) is None,
            _ => true,
        }
}

/// Whether the recorded copies are exactly the known constants.
pub open spec fn copies_are_constants(copies: Map<ValueId, Operand>, constants: Map<ValueId, i64>) -> bool {
    &&& copies.dom() == constants.dom()
    &&& forall|id: ValueId| #[trigger] copies.contains_key(id) ==> copies[id] == Operand::Constant(constants[id])
}

proof fn lemma_unfoldable_cons(x: SsaInstruction, rest: Seq<SsaInstruction>)
    requires
        constant_operations_unfoldable(rest),
        constant_operations_unfoldable(seq![x]),
    ensures
        constant_operations_unfoldable(seq![x] + rest),
{
    let all = seq![x] + rest;
    assert forall|i: int| 0 <= i < all.len() implies match #[trigger] all[i] {
        SsaInstruction::Binary { op, left: Operand::Constant(a), right: Operand::Constant(b), .. } =>
            binary_value(op, a, b) is None,
        _ => true,
    } by {
        if i == 0 {
            assert(all[0] == seq![x][0]);
        } else {
            assert(all[i] == rest[i - 1]);
        }
    }
}

/// Without copies in the input, copy propagation after constant folding turns no operand into a
/// constant: every operation on two constants it leaves was left by folding, which folds every
/// such operation that has a value.
proof fn lemma_fold_then_propagate(
    constants: Map<ValueId, i64>,
    copies: Map<ValueId, Operand>,
    s: Seq<SsaInstruction>,
)
    requires
        no_copy(s),
        copies_are_constants(copies, constants),
    ensures
        constant_operations_unfoldable(copy_propagate_spec(copies, constant_fold_spec(constants, s).0).0),
    decreases s.len(),
{
    let out = constant_fold_spec(constants, s).0;
    if s.len() > 0 {
        let rest = s.subrange(1, s.len() as int);
        assert(no_copy(rest)) by {
            assert forall|i: int| 0 <= i < rest.len() implies !(#[trigger] rest[i] is Copy) by {
                assert(rest[i] == s[i + 1]);
            }
        }
        assert(!(s[0] is Copy));
        match s[0] {
            SsaInstruction::Binary { result, op, left, right } => {
                let l = resolve_constant_spec(left, constants);
                let r = resolve_constant_spec(right, constants);
                let folded = match (l, r) {
                    (Operand::Constant(a), Operand::Constant(b)) => binary_value(op, a, b),
                    _ => None,
                };
                match folded {
                    Some(v) => {
                        let next = constants.insert(result, v);
                        let next_copies = copies.insert(result, Operand::Constant(v));
                        assert(copies_are_constants(next_copies, next)) by {
                            assert(next_copies.dom() =~= next.dom());
                        }
                        lemma_fold_then_propagate(next, next_copies, rest);
                        let head = SsaInstruction::Copy { result, source: Operand::Constant(v) };
                        let tail = constant_fold_spec(next, rest).0;
                        assert(out == seq![head] + tail);
                        assert(out[0] == head);
                        assert(out.subrange(1, out.len() as int) =~= tail);
                        let (p, _) = copy_propagate_spec(next_copies, tail);
                        assert(copy_propagate_spec(copies, out).0 == seq![head] + p);
                        lemma_unfoldable_cons(head, p);
                    },
                    None => {
                        lemma_fold_then_propagate(constants, copies, rest);
                        let head = SsaInstruction::Binary { result, op, left: l, right: r };
                        let tail = constant_fold_spec(constants, rest).0;
                        assert(out == seq![head] + tail);
                        assert(out[0] == head);
                        assert(out.subrange(1, out.len() as int) =~= tail);
                        assert(resolve_copy_spec(copies, l, Set::empty()) == l);
                        assert(resolve_copy_spec(copies, r, Set::empty()) == r);
                        let (p, _) = copy_propagate_spec(copies, tail);
                        assert(copy_propagate_spec(copies, out).0 == seq![head] + p);
                        lemma_unfoldable_cons(head, p);
                    },
                }
            },
            SsaInstruction::Return { value } => {
                lemma_fold_then_propagate(constants, copies, rest);
                let head = SsaInstruction::Return { value: resolve_constant_spec(value, constants) };
                let tail = constant_fold_spec(constants, rest).0;
                assert(out == seq![head] + tail);
                assert(out[0] == head);
                assert(out.subrange(1, out.len() as int) =~= tail);
                let v2 = resolve_copy_spec(copies, head->value, Set::empty());
                let (p, _) = copy_propagate_spec(copies, tail);
                assert(copy_propagate_spec(copies, out).0 == seq![SsaInstruction::Return { value: v2 }] + p);
                lemma_unfoldable_cons(SsaInstruction::Return { value: v2 }, p);
            },
            SsaInstruction::Copy { .. } => {},
        }
    }
}

/// Every binary operation on two constants that the SSA optimizer leaves in a program without
/// copies (such as every lowered program) overflows `i64` or divides by zero: every other one is
/// folded.
pub proof fn lemma_optimize_leaves_only_unfoldable_constants(s: Seq<SsaInstruction>)
    requires
        no_copy(s),
    ensures
        forall|i: int|
            0 <= i < optimize_spec(s).0.len() ==> match #[trigger] optimize_spec(s).0[i] {
                SsaInstruction::Binary { op, left: Operand::Constant(a), right: Operand::Constant(b), .. } =>
                    binary_value(op, a, b) is None && overflows_or_divides_by_zero(op, a, b),
                _ => true,
            },
{
    assert(copies_are_constants(Map::empty(), Map::empty())) by {
        assert(Map::<ValueId, Operand>::empty().dom() =~= Map::<ValueId, i64>::empty().dom());
    }
    lemma_fold_then_propagate(Map::empty(), Map::empty(), s);
    let propagated = copy_propagate_spec(Map::empty(), constant_fold_spec(Map::empty(), s).0).0;
    let out = optimize_spec(s).0;
    assert(out == dead_code_spec(Set::empty(), propagated).0);
    assert forall|i: int| 0 <= i < out.len() implies match #[trigger] out[i] {
        SsaInstruction::Binary { op, left: Operand::Constant(a), right: Operand::Constant(b), .. } =>
            binary_value(op, a, b) is None && overflows_or_divides_by_zero(op, a, b),
        _ => true,
    } by {
        assert(out.contains(out[i]));
        lemma_dead_code_elements(Set::empty(), propagated, out[i]);
        let j = choose|j: int| 0 <= j < propagated.len() && propagated[j] == out[i];
        assert(propagated[j] == out[i]);
        if let SsaInstruction::Binary { op, left: Operand::Constant(a), right: Operand::Constant(b), .. } = out[i] {
            lemma_unfolded_operation(op, a, b);
        }
    }
}

/// Running a block of binary operations: the values after them, or the first error.
pub open spec fn run_binaries(env: Map<ValueId, i64>, code: Seq<SsaInstruction>) -> Result<
    Map<ValueId, i64>,
    RuntimeError,
>
    decreases code.len(),
{
    if code.len() == 0 {
        Ok(env)
    } else {
        match code[0] {
            SsaInstruction::Binary { result, op, left, right } => match operand_value(env, left) {
                Err(e) => Err(e),
                Ok(l) => match operand_value(env, right) {
                    Err(e) => Err(e),
                    Ok(r) => match run_binary(op, l, r) {
                        Err(e) => Err(e),
                        Ok(v) => run_binaries(env.insert(result, v), code.subrange(1, code.len() as int)),
                    },
                },
            },
            _ => Ok(env),
        }
    }
}

/// Whether every instruction is a binary operation.
pub open spec fn all_binary(code: Seq<SsaInstruction>) -> bool {
    forall|i: int| 0 <= i < code.len() ==> #[trigger] code[i] is Binary
}

proof fn lemma_run_after_binaries(env: Map<ValueId, i64>, a: Seq<SsaInstruction>, b: Seq<SsaInstruction>)
    requires
        all_binary(a),
    ensures
        run_ssa_spec(env, a + b).0 == match run_binaries(env, a) {
            Err(e) => Err(e),
            Ok(after) => run_ssa_spec(after, b).0,
        },
    decreases a.len(),
{
    if a.len() == 0 {
        assert(a + b =~= b);
    } else {
        let rest = a.subrange(1, a.len() as int);
        assert((a + b)[0] == a[0]);
        assert((a + b).subrange(1, (a + b).len() as int) =~= rest + b);
        assert(a[0] is Binary);
        assert forall|i: int| 0 <= i < rest.len() implies #[trigger] rest[i] is Binary by {
            assert(rest[i] == a[i + 1]);
        }
        if let SsaInstruction::Binary { result, op, left, right } = a[0] {
            if let Ok(l) = operand_value(env, left) {
                if let Ok(r) = operand_value(env, right) {
                    if let Ok(v) = run_binary(op, l, r) {
                        lemma_run_after_binaries(env.insert(result, v), rest, b);
                    }
                }
            }
        }
    }
}

proof fn lemma_binaries_concat(env: Map<ValueId, i64>, a: Seq<SsaInstruction>, b: Seq<SsaInstruction>)
    requires
        all_binary(a),
    ensures
        run_binaries(env, a + b) == match run_binaries(env, a) {
            Err(e) => Err(e),
            Ok(after) => run_binaries(after, b),
        },
    decreases a.len(),
{
    if a.len() == 0 {
        assert(a + b =~= b);
    } else {
        let rest = a.subrange(1, a.len() as int);
        assert((a + b)[0] == a[0]);
        assert((a + b).subrange(1, (a + b).len() as int) =~= rest + b);
        assert(a[0] is Binary);
        assert forall|i: int| 0 <= i < rest.len() implies #[trigger] rest[i] is Binary by {
            assert(rest[i] == a[i + 1]);
        }
        if let SsaInstruction::Binary { result, op, left, right } = a[0] {
            if let Ok(l) = operand_value(env, left) {
                if let Ok(r) = operand_value(env, right) {
                    if let Ok(v) = run_binary(op, l, r) {
                        lemma_binaries_concat(env.insert(result, v), rest, b);
                    }
                }
            }
        }
    }
}

/// How lowered code relates to the program it came from: each lowered symbol's operand has the
/// symbol's value, and every value defined so far has an id below `next`.
pub open spec fn lowering_related(
    symbols: Map<SymbolId, Operand>,
    values: Map<ValueId, i64>,
    env: Map<SymbolId, i64>,
    next: int,
) -> bool {
    &&& forall|id: ValueId| #[trigger] values.contains_key(id) ==> id < next
    &&& forall|s: SymbolId|
        #[trigger] symbols.contains_key(s) ==> env.contains_key(s) && operand_value(values, symbols[s])
            == Ok::<i64, RuntimeError>(env[s])
}

/// Whether `after` holds every value of `before`.
pub open spec fn extends(before: Map<ValueId, i64>, after: Map<ValueId, i64>) -> bool {
    forall|id: ValueId| #[trigger] before.contains_key(id) ==> after.contains_key(id) && after[id] == before[id]
}

proof fn lemma_extends_operand(before: Map<ValueId, i64>, after: Map<ValueId, i64>, o: Operand)
    requires
        extends(before, after),
        operand_value(before, o) is Ok,
    ensures
        operand_value(after, o) == operand_value(before, o),
{
}

/// Lowering a value tree emits only binary operations, one per operation of the tree.
proof fn lemma_lower_value_shape(symbols: Map<SymbolId, Operand>, next: int, value: IrValue)
    ensures
        all_binary(lower_value_spec(symbols, next, value).1),
        lower_value_spec(symbols, next, value).2 == next + binary_count(value),
    decreases value,
{
    if let IrValue::Binary { left, op, right, .. } = value {
        lemma_lower_value_shape(symbols, next, *left);
        let (l, li, n1) = lower_value_spec(symbols, next, *left);
        lemma_lower_value_shape(symbols, n1, *right);
        let (r, ri, n2) = lower_value_spec(symbols, n1, *right);
        let code = lower_value_spec(symbols, next, value).1;
        assert forall|i: int| 0 <= i < code.len() implies #[trigger] code[i] is Binary by {
            if i < li.len() {
                assert(code[i] == li[i]);
            } else if i < li.len() + ri.len() {
                assert(code[i] == ri[i - li.len()]);
            }
        }
    }
}

proof fn lemma_lower_value(
    symbols: Map<SymbolId, Operand>,
    values: Map<ValueId, i64>,
    env: Map<SymbolId, i64>,
    next: int,
    value: IrValue,
)
    requires
        lowering_related(symbols, values, env, next),
        value_bound(symbols.dom(), value),
        0 <= next,
        next + binary_count(value) <= u32::MAX + 1,
    ensures
        ({
            let (operand, code, after_next) = lower_value_spec(symbols, next, value);
            &&& all_binary(code)
            &&& after_next == next + binary_count(value)
            &&& match eval_ir_spec(env, value) {
                Err(e) => run_binaries(values, code) == Err::<Map<ValueId, i64>, RuntimeError>(e),
                Ok(x) => run_binaries(values, code) matches Ok(after) && operand_value(after, operand)
                    == Ok::<i64, RuntimeError>(x) && lowering_related(symbols, after, env, after_next) && extends(
                    values,
                    after,
                ),
            }
        }),
    decreases value,
{
    match value {
        IrValue::Symbol { symbol_id, .. } => {
            assert(symbols.contains_key(symbol_id));
            assert(extends(values, values));
        },
        IrValue::Binary { left, op, right, .. } => {
            lemma_lower_value_shape(symbols, next, value);
            lemma_lower_value(symbols, values, env, next, *left);
            let (l, li, n1) = lower_value_spec(symbols, next, *left);
            lemma_lower_value_shape(symbols, n1, *right);
            let (r, ri, n2) = lower_value_spec(symbols, n1, *right);
            let bin = SsaInstruction::Binary { result: n2 as ValueId, op, left: l, right: r };
            let code = li + ri + seq![bin];
            assert(code == lower_value_spec(symbols, next, value).1);
            assert(all_binary(li + ri)) by {
                assert forall|i: int| 0 <= i < (li + ri).len() implies #[trigger] (li + ri)[i] is Binary by {
                    assert((li + ri)[i] == code[i]);
                }
            }
            lemma_binaries_concat(values, li + ri, seq![bin]);
            lemma_binaries_concat(values, li, ri);
            match eval_ir_spec(env, *left) {
                Err(e) => {},
                Ok(lx) => {
                    let after_left = run_binaries(values, li)->Ok_0;
                    lemma_lower_value(symbols, after_left, env, n1, *right);
                    match eval_ir_spec(env, *right) {
                        Err(e) => {},
                        Ok(rx) => {
                            let after_right = run_binaries(after_left, ri)->Ok_0;
                            lemma_extends_operand(after_left, after_right, l);
                            let one = seq![bin];
                            assert(one[0] == bin);
                            assert(one.subrange(1, 1) =~= Seq::<SsaInstruction>::empty());
                            if let Ok(v) = run_binary(op, lx, rx) {
                                let after = after_right.insert(n2 as ValueId, v);
                                assert(operand_value(after_right, l) == Ok::<i64, RuntimeError>(lx));
                                assert(operand_value(after_right, r) == Ok::<i64, RuntimeError>(rx));
                                assert(run_binaries(after, one.subrange(1, one.len() as int)) == Ok::<
                                    Map<ValueId, i64>,
                                    RuntimeError,
                                >(after));
                                assert(run_binaries(after_right, one) == Ok::<Map<ValueId, i64>, RuntimeError>(after));
                                assert(!after_right.contains_key(n2 as ValueId));
                                assert(extends(values, after));
                                assert(operand_value(after, Operand::Value(n2 as ValueId)) == Ok::<i64, RuntimeError>(v));
                                assert forall|s: SymbolId| #[trigger] symbols.contains_key(s) implies env.contains_key(s)
                                    && operand_value(after, symbols[s]) == Ok::<i64, RuntimeError>(env[s]) by {
                                    lemma_extends_operand(after_right, after, symbols[s]);
                                }
                            }
                        },
                    }
                },
            }
        },
        _ => {
            assert(extends(values, values));
        },
    }
}

proof fn lemma_lower_instructions(
    symbols: Map<SymbolId, Operand>,
    values: Map<ValueId, i64>,
    env: Map<SymbolId, i64>,
    next: int,
    instructions: Seq<IrInstruction>,
)
    requires
        lowering_related(symbols, values, env, next),
        instructions_bound(symbols.dom(), instructions),
        0 <= next,
        next + instructions_binary_count(instructions) <= u32::MAX + 1,
    ensures
        run_ssa_spec(values, lower_instructions_spec(symbols, next, instructions)).0 == run_ir_spec(
            env,
            instructions,
        ).0,
    decreases instructions.len(),
{
    if instructions.len() > 0 {
        let rest = instructions.subrange(1, instructions.len() as int);
        let value = instruction_value(instructions[0]);
        lemma_lower_value(symbols, values, env, next, value);
        let (operand, code, n) = lower_value_spec(symbols, next, value);
        match instructions[0] {
            IrInstruction::Bind { symbol_id, .. } => {
                lemma_run_after_binaries(values, code, lower_instructions_spec(symbols.insert(symbol_id, operand), n, rest));
                if let Ok(x) = eval_ir_spec(env, value) {
                    let after = run_binaries(values, code)->Ok_0;
                    let symbols2 = symbols.insert(symbol_id, operand);
                    let env2 = env.insert(symbol_id, x);
                    assert forall|s: SymbolId| #[trigger] symbols2.contains_key(s) implies env2.contains_key(s)
                        && operand_value(after, symbols2[s]) == Ok::<i64, RuntimeError>(env2[s]) by {
                        if s != symbol_id {
                            assert(symbols.contains_key(s));
                        }
                    }
                    assert(symbols2.dom() =~= symbols.dom().insert(symbol_id));
                    lemma_lower_instructions(symbols2, after, env2, n, rest);
                }
            },
            IrInstruction::Return { .. } => {
                let tail = seq![SsaInstruction::Return { value: operand }] + lower_instructions_spec(symbols, n, rest);
                assert(code + seq![SsaInstruction::Return { value: operand }] + lower_instructions_spec(symbols, n, rest)
                    =~= code + tail);
                lemma_run_after_binaries(values, code, tail);
                assert(tail[0] == SsaInstruction::Return { value: operand });
            },
        }
    }
}

/// Lowering to SSA keeps what a program computes: a program whose instructions read only
/// symbols bound before them gives, lowered by a fresh lowerer and run from no values, the
/// result (value or error) the linear program gives when run from no symbol values.
pub proof fn lemma_lowering_preserves_result(instructions: Seq<IrInstruction>)
    requires
        instructions_bound(Set::empty(), instructions),
        instructions_binary_count(instructions) <= u32::MAX,
    ensures
        run_ssa_spec(Map::empty(), lower_instructions_spec(Map::empty(), 0, instructions)).0 == run_ir_spec(
            Map::empty(),
            instructions,
        ).0,
{
    assert(Map::<SymbolId, Operand>::empty().dom() =~= Set::<SymbolId>::empty());
    lemma_lower_instructions(Map::empty(), Map::empty(), Map::empty(), 0, instructions);
}

/// The number of returns among the instructions.
pub open spec fn return_count(s: Seq<SsaInstruction>) -> nat
    decreases s.len(),
{
    if s.len() == 0 {
        0
    } else {
        return_count(s.drop_last()) + if s.last() is Return { 1nat } else { 0nat }
    }
}

/// Whether an instruction reads the value `id`.
pub open spec fn reads_value(instruction: SsaInstruction, id: ValueId) -> bool {
    match instruction {
        SsaInstruction::Binary { left, right, .. } => left == Operand::Value(id) || right == Operand::Value(id),
        SsaInstruction::Copy { source, .. } => source == Operand::Value(id),
        SsaInstruction::Return { value } => value == Operand::Value(id),
    }
}

proof fn lemma_return_count_front(x: SsaInstruction, s: Seq<SsaInstruction>)
    ensures
        return_count(seq![x] + s) == return_count(s) + if x is Return { 1nat } else { 0nat },
    decreases s.len(),
{
    if s.len() > 0 {
        lemma_return_count_front(x, s.drop_last());
        assert((seq![x] + s).drop_last() =~= seq![x] + s.drop_last());
        assert((seq![x] + s).last() == s.last());
        assert(return_count(s) == return_count(s.drop_last()) + if s.last() is Return { 1nat } else { 0nat });
    } else {
        assert((seq![x] + s).drop_last() =~= Seq::<SsaInstruction>::empty());
        assert((seq![x] + s).last() == x);
        assert(return_count(Seq::<SsaInstruction>::empty()) == 0);
    }
}

proof fn lemma_fold_returns(constants: Map<ValueId, i64>, s: Seq<SsaInstruction>)
    ensures
        return_count(constant_fold_spec(constants, s).0) == return_count(s),
    decreases s.len(),
{
    if s.len() > 0 {
        let rest = s.subrange(1, s.len() as int);
        assert(s =~= seq![s[0]] + rest);
        lemma_return_count_front(s[0], rest);
        match s[0] {
            SsaInstruction::Binary { result, op, left, right } => {
                let l = resolve_constant_spec(left, constants);
                let r = resolve_constant_spec(right, constants);
                let folded = match (l, r) {
                    (Operand::Constant(a), Operand::Constant(b)) => binary_value(op, a, b),
                    _ => None,
                };
                match folded {
                    Some(v) => {
                        lemma_fold_returns(constants.insert(result, v), rest);
                        lemma_return_count_front(SsaInstruction::Copy { result, source: Operand::Constant(v) },
                            constant_fold_spec(constants.insert(result, v), rest).0);
                    },
                    None => {
                        lemma_fold_returns(constants, rest);
                        lemma_return_count_front(SsaInstruction::Binary { result, op, left: l, right: r },
                            constant_fold_spec(constants, rest).0);
                    },
                }
            },
            SsaInstruction::Copy { result, source } => {
                let src = resolve_constant_spec(source, constants);
                let next = match src {
                    Operand::Constant(v) => constants.insert(result, v),
                    _ => constants,
                };
                lemma_fold_returns(next, rest);
                lemma_return_count_front(SsaInstruction::Copy { result, source: src }, constant_fold_spec(next, rest).0);
            },
            SsaInstruction::Return { value } => {
                lemma_fold_returns(constants, rest);
                lemma_return_count_front(SsaInstruction::Return { value: resolve_constant_spec(value, constants) },
                    constant_fold_spec(constants, rest).0);
            },
        }
    }
}

proof fn lemma_propagate_returns(copies: Map<ValueId, Operand>, s: Seq<SsaInstruction>)
    ensures
        return_count(copy_propagate_spec(copies, s).0) == return_count(s),
    decreases s.len(),
{
    if s.len() > 0 {
        let rest = s.subrange(1, s.len() as int);
        assert(s =~= seq![s[0]] + rest);
        lemma_return_count_front(s[0], rest);
        match s[0] {
            SsaInstruction::Copy { result, source } => {
                let src = resolve_copy_spec(copies, source, Set::empty());
                lemma_propagate_returns(copies.insert(result, src), rest);
                lemma_return_count_front(SsaInstruction::Copy { result, source: src },
                    copy_propagate_spec(copies.insert(result, src), rest).0);
            },
            SsaInstruction::Binary { result, op, left, right } => {
                let l = resolve_copy_spec(copies, left, Set::empty());
                let r = resolve_copy_spec(copies, right, Set::empty());
                lemma_propagate_returns(copies, rest);
                lemma_return_count_front(SsaInstruction::Binary { result, op, left: l, right: r },
                    copy_propagate_spec(copies, rest).0);
            },
            SsaInstruction::Return { value } => {
                let v = resolve_copy_spec(copies, value, Set::empty());
                lemma_propagate_returns(copies, rest);
                lemma_return_count_front(SsaInstruction::Return { value: v }, copy_propagate_spec(copies, rest).0);
            },
        }
    }
}

/// Dead-code elimination keeps every return, and every value it keeps an instruction for is
/// read by a later kept instruction or is among the values read after the instructions.
proof fn lemma_dead_code_laws(live: Set<ValueId>, s: Seq<SsaInstruction>)
    ensures
        return_count(dead_code_spec(live, s).0) == return_count(s),
        forall|i: int|
            0 <= i < dead_code_spec(live, s).0.len() && (#[trigger] dead_code_spec(live, s).0[i]).spec_result()
                is Some ==> live.contains(dead_code_spec(live, s).0[i].spec_result().unwrap()) || exists|j: int|
                i < j < dead_code_spec(live, s).0.len() && reads_value(
                    dead_code_spec(live, s).0[j],
                    dead_code_spec(live, s).0[i].spec_result().unwrap(),
                ),
    decreases s.len(),
{
    if s.len() > 0 {
        let init = s.drop_last();
        let last = s.last();
        let out = dead_code_spec(live, s).0;
        let next = match last {
            SsaInstruction::Return { value } => mark_operand_spec(value, live),
            SsaInstruction::Binary { result, left, right, .. } => if live.contains(result) {
                mark_operand_spec(right, mark_operand_spec(left, live.remove(result)))
            } else {
                live
            },
            SsaInstruction::Copy { result, source } => if live.contains(result) {
                mark_operand_spec(source, live.remove(result))
            } else {
                live
            },
        };
        let kept_last = match last {
            SsaInstruction::Return { .. } => true,
            SsaInstruction::Binary { result, .. } => live.contains(result),
            SsaInstruction::Copy { result, .. } => live.contains(result),
        };
        lemma_dead_code_laws(next, init);
        let kept = dead_code_spec(next, init).0;
        if kept_last {
            assert(out == kept.push(last));
            assert(out.drop_last() =~= kept);
        } else {
            assert(out == kept);
        }
        assert forall|i: int|
            0 <= i < out.len() && (#[trigger] out[i]).spec_result() is Some implies live.contains(
                out[i].spec_result().unwrap(),
            ) || exists|j: int| i < j < out.len() && reads_value(out[j], out[i].spec_result().unwrap()) by {
            if i < kept.len() {
                assert(out[i] == kept[i]);
                let r = kept[i].spec_result().unwrap();
                if next.contains(r) {
                    if !live.contains(r) {
                        assert(kept_last);
                        assert(reads_value(out[kept.len() as int], r));
                    }
                } else {
                    let j = choose|j: int| i < j < kept.len() && reads_value(kept[j], r);
                    assert(out[j] == kept[j]);
                }
            }
        }
    }
}

/// The SSA optimizer keeps every return, and every value computed by an instruction it keeps is
/// read by a later instruction.
pub proof fn lemma_optimize_keeps_returns_and_reads_results(s: Seq<SsaInstruction>)
    ensures
        return_count(optimize_spec(s).0) == return_count(s),
        forall|i: int|
            0 <= i < optimize_spec(s).0.len() && (#[trigger] optimize_spec(s).0[i]).spec_result() is Some
                ==> exists|j: int|
                i < j < optimize_spec(s).0.len() && reads_value(
                    optimize_spec(s).0[j],
                    optimize_spec(s).0[i].spec_result().unwrap(),
                ),
{
    let (folded, _) = constant_fold_spec(Map::empty(), s);
    let (propagated, _) = copy_propagate_spec(Map::empty(), folded);
    lemma_fold_returns(Map::empty(), s);
    lemma_propagate_returns(Map::empty(), folded);
    lemma_dead_code_laws(Set::empty(), propagated);
}

/// The results of the binary operations among the instructions, in order.
pub open spec fn binary_results(s: Seq<SsaInstruction>) -> Seq<ValueId>
    decreases s.len(),
{
    if s.len() == 0 {
        Seq::empty()
    } else if s.last() is Binary {
        binary_results(s.drop_last()).push(s.last()->Binary_result)
    } else {
        binary_results(s.drop_last())
    }
}

/// Whether every value an instruction reads is in `base` or is the result of a binary operation
/// before it.
pub open spec fn reads_defined(s: Seq<SsaInstruction>, base: Set<ValueId>) -> bool
    decreases s.len(),
{
    s.len() == 0 || {
        &&& reads_defined(s.drop_last(), base)
        &&& forall|v: ValueId|
            #[trigger] reads_value(s.last(), v) ==> base.contains(v) || binary_results(s.drop_last()).contains(v)
    }
}

/// Whether the ids run consecutively from `next`.
pub open spec fn consecutive(ids: Seq<ValueId>, next: int) -> bool {
    forall|i: int| 0 <= i < ids.len() ==> #[trigger] ids[i] as int == next + i
}

/// Whether no instruction is a copy.
pub open spec fn no_copy(s: Seq<SsaInstruction>) -> bool {
    forall|i: int| 0 <= i < s.len() ==> !(#[trigger] s[i] is Copy)
}

/// The number of returns of linear instructions.
pub open spec fn ir_return_count(instructions: Seq<IrInstruction>) -> nat
    decreases instructions.len(),
{
    if instructions.len() == 0 {
        0
    } else {
        ir_return_count(instructions.subrange(1, instructions.len() as int)) + if instructions[0] is Return {
            1nat
        } else {
            0nat
        }
    }
}

/// Whether every value a symbol stands for is in `base`.
pub open spec fn symbols_in(symbols: Map<SymbolId, Operand>, base: Set<ValueId>) -> bool {
    forall|id: SymbolId| #[trigger] symbols.contains_key(id) ==> match symbols[id] {
        Operand::Value(v) => base.contains(v),
        Operand::Constant(_) => true,
    }
}

proof fn lemma_concat(a: Seq<SsaInstruction>, b: Seq<SsaInstruction>, base: Set<ValueId>)
    ensures
        binary_results(a + b) == binary_results(a) + binary_results(b),
        return_count(a + b) == return_count(a) + return_count(b),
        reads_defined(a, base) && reads_defined(b, base.union(binary_results(a).to_set())) ==> reads_defined(
            a + b,
            base,
        ),
    decreases b.len(),
{
    if b.len() == 0 {
        assert(a + b =~= a);
        assert(binary_results(a) + binary_results(b) =~= binary_results(a));
    } else {
        let bi = b.drop_last();
        lemma_concat(a, bi, base);
        assert((a + b).drop_last() =~= a + bi);
        assert((a + b).last() == b.last());
        if b.last() is Binary {
            assert(binary_results(a) + binary_results(b) =~= (binary_results(a) + binary_results(bi)).push(
                b.last()->Binary_result,
            ));
        }
        if reads_defined(a, base) && reads_defined(b, base.union(binary_results(a).to_set())) {
            assert forall|v: ValueId| #[trigger] reads_value((a + b).last(), v) implies base.contains(v)
                || binary_results((a + b).drop_last()).contains(v) by {
                if !base.contains(v) {
                    if binary_results(a).to_set().contains(v) {
                        let k = choose|k: int| 0 <= k < binary_results(a).len() && binary_results(a)[k] == v;
                        assert((binary_results(a) + binary_results(bi))[k] == v);
                    } else {
                        assert(binary_results(bi).contains(v));
                        let k = choose|k: int| 0 <= k < binary_results(bi).len() && binary_results(bi)[k] == v;
                        assert((binary_results(a) + binary_results(bi))[binary_results(a).len() + k] == v);
                    }
                }
            }
        }
    }
}

proof fn lemma_lower_value_laws(symbols: Map<SymbolId, Operand>, next: int, value: IrValue, base: Set<ValueId>)
    requires
        0 <= next,
        next + binary_count(value) <= u32::MAX + 1,
        value_bound(symbols.dom(), value),
        symbols_in(symbols, base),
    ensures
        ({
            let (op, emitted, n) = lower_value_spec(symbols, next, value);
            &&& no_copy(emitted)
            &&& return_count(emitted) == 0
            &&& consecutive(binary_results(emitted), next)
            &&& binary_results(emitted).len() == n - next
            &&& reads_defined(emitted, base)
            &&& match op {
                Operand::Value(v) => base.contains(v) || binary_results(emitted).contains(v),
                Operand::Constant(_) => true,
            }
        }),
    decreases value,
{
    match value {
        IrValue::Binary { left, op, right, .. } => {
            lemma_lower_value_next(symbols, next, *left);
            let (l, li, n1) = lower_value_spec(symbols, next, *left);
            lemma_lower_value_next(symbols, n1, *right);
            let (r, ri, n2) = lower_value_spec(symbols, n1, *right);
            lemma_lower_value_laws(symbols, next, *left, base);
            let base1 = base.union(binary_results(li).to_set());
            assert(symbols_in(symbols, base1));
            lemma_lower_value_laws(symbols, n1, *right, base1);
            let bin = SsaInstruction::Binary { result: n2 as ValueId, op, left: l, right: r };
            let one = seq![bin];
            lemma_concat(li, ri, base);
            let lr = li + ri;
            assert(one.drop_last() =~= Seq::<SsaInstruction>::empty());
            assert(binary_results(Seq::<SsaInstruction>::empty()) =~= Seq::<ValueId>::empty());
            assert(reads_defined(Seq::<SsaInstruction>::empty(), base.union(binary_results(lr).to_set())));
            assert(reads_defined(one, base.union(binary_results(lr).to_set()))) by {
                assert(one.last() == bin);
                assert forall|v: ValueId| #[trigger] reads_value(one.last(), v) implies base.union(
                    binary_results(lr).to_set(),
                ).contains(v) || binary_results(one.drop_last()).contains(v) by {
                    if l == Operand::Value(v) && !base.contains(v) {
                        let k = choose|k: int| 0 <= k < binary_results(li).len() && binary_results(li)[k] == v;
                        assert(binary_results(lr)[k] == v);
                    }
                    if r == Operand::Value(v) && !base.contains(v) {
                        if binary_results(li).to_set().contains(v) {
                            let k = choose|k: int| 0 <= k < binary_results(li).len() && binary_results(li)[k] == v;
                            assert(binary_results(lr)[k] == v);
                        } else {
                            let k = choose|k: int| 0 <= k < binary_results(ri).len() && binary_results(ri)[k] == v;
                            assert(binary_results(lr)[binary_results(li).len() + k] == v);
                        }
                    }
                }
            }
            lemma_concat(lr, one, base);
            assert(one.drop_last() =~= Seq::<SsaInstruction>::empty());
            assert(binary_results(one) == seq![n2 as ValueId]);
            assert(return_count(Seq::<SsaInstruction>::empty()) == 0);
            assert(one.last() == bin);
            assert(return_count(one) == 0);
            let all = lr + one;
            assert(binary_results(all) == binary_results(li) + binary_results(ri) + seq![n2 as ValueId]);
            assert(consecutive(binary_results(all), next)) by {
                let rs = binary_results(all);
                assert forall|i: int| 0 <= i < rs.len() implies #[trigger] rs[i] as int == next + i by {
                    if i < binary_results(li).len() {
                        assert(rs[i] == binary_results(li)[i]);
                    } else if i < binary_results(li).len() + binary_results(ri).len() {
                        assert(rs[i] == binary_results(ri)[i - binary_results(li).len()]);
                    } else {
                        assert(rs[i] == n2 as ValueId);
                    }
                }
            }
            assert(no_copy(all)) by {
                assert forall|i: int| 0 <= i < all.len() implies !(#[trigger] all[i] is Copy) by {
                    if i < li.len() {
                        assert(all[i] == li[i]);
                    } else if i < li.len() + ri.len() {
                        assert(all[i] == ri[i - li.len()]);
                    } else {
                        assert(all[i] == bin);
                    }
                }
            }
            assert(binary_results(all)[binary_results(all).len() - 1] == n2 as ValueId);
        },
        IrValue::Symbol { symbol_id, .. } => {
            assert(binary_results(Seq::<SsaInstruction>::empty()) =~= Seq::<ValueId>::empty());
        },
        _ => {
            assert(binary_results(Seq::<SsaInstruction>::empty()) =~= Seq::<ValueId>::empty());
        },
    }
}

proof fn lemma_no_copy_concat(a: Seq<SsaInstruction>, b: Seq<SsaInstruction>)
    requires
        no_copy(a),
        no_copy(b),
    ensures
        no_copy(a + b),
{
    assert forall|i: int| 0 <= i < (a + b).len() implies !(#[trigger] (a + b)[i] is Copy) by {
        if i < a.len() {
            assert((a + b)[i] == a[i]);
        } else {
            assert((a + b)[i] == b[i - a.len()]);
        }
    }
}

proof fn lemma_consecutive_concat(a: Seq<ValueId>, b: Seq<ValueId>, next: int)
    requires
        consecutive(a, next),
        consecutive(b, next + a.len()),
    ensures
        consecutive(a + b, next),
{
    assert forall|i: int| 0 <= i < (a + b).len() implies #[trigger] (a + b)[i] as int == next + i by {
        if i < a.len() {
            assert((a + b)[i] == a[i]);
        } else {
            assert((a + b)[i] == b[i - a.len()]);
        }
    }
}

proof fn lemma_lower_instructions_laws(
    symbols: Map<SymbolId, Operand>,
    next: int,
    instructions: Seq<IrInstruction>,
    base: Set<ValueId>,
)
    requires
        0 <= next,
        next + instructions_binary_count(instructions) <= u32::MAX + 1,
        instructions_bound(symbols.dom(), instructions),
        symbols_in(symbols, base),
    ensures
        ({
            let out = lower_instructions_spec(symbols, next, instructions);
            &&& no_copy(out)
            &&& return_count(out) == ir_return_count(instructions)
            &&& consecutive(binary_results(out), next)
            &&& reads_defined(out, base)
        }),
    decreases instructions.len(),
{
    let out = lower_instructions_spec(symbols, next, instructions);
    if instructions.len() == 0 {
        assert(binary_results(out) =~= Seq::<ValueId>::empty());
        assert(return_count(out) == 0);
    } else {
        let rest = instructions.subrange(1, instructions.len() as int);
        let value = instruction_value(instructions[0]);
        let (operand, emitted, n) = lower_value_spec(symbols, next, value);
        lemma_lower_value_next(symbols, next, value);
        lemma_lower_value_laws(symbols, next, value, base);
        let base1 = base.union(binary_results(emitted).to_set());
        match instructions[0] {
            IrInstruction::Bind { symbol_id, .. } => {
                let symbols1 = symbols.insert(symbol_id, operand);
                assert(symbols1.dom() =~= symbols.dom().insert(symbol_id));
                assert(symbols_in(symbols1, base1));
                lemma_lower_instructions_laws(symbols1, n, rest, base1);
                let tail = lower_instructions_spec(symbols1, n, rest);
                assert(out == emitted + tail);
                lemma_concat(emitted, tail, base);
                lemma_no_copy_concat(emitted, tail);
                lemma_consecutive_concat(binary_results(emitted), binary_results(tail), next);
            },
            IrInstruction::Return { .. } => {
                let one = seq![SsaInstruction::Return { value: operand }];
                assert(one.drop_last() =~= Seq::<SsaInstruction>::empty());
                assert(one.last() == SsaInstruction::Return { value: operand });
                assert(binary_results(Seq::<SsaInstruction>::empty()) =~= Seq::<ValueId>::empty());
                assert(binary_results(one) =~= Seq::<ValueId>::empty());
                assert(return_count(Seq::<SsaInstruction>::empty()) == 0);
                assert(return_count(one) == 1);
                assert(reads_defined(Seq::<SsaInstruction>::empty(), base1));
                assert(reads_defined(one, base1));
                assert(no_copy(one));
                lemma_concat(emitted, one, base);
                let mid = emitted + one;
                assert(binary_results(mid) =~= binary_results(emitted));
                lemma_lower_instructions_laws(symbols, n, rest, base1);
                let tail = lower_instructions_spec(symbols, n, rest);
                assert(out == mid + tail);
                lemma_concat(mid, tail, base);
                lemma_no_copy_concat(emitted, one);
                lemma_no_copy_concat(mid, tail);
                lemma_consecutive_concat(binary_results(mid), binary_results(tail), next);
            },
        }
    }
}

/// Lowering a linear program whose instructions read only symbols bound before them, with a
/// fresh lowerer: the binary operations get the ids 0, 1, 2, ... in order, every value an
/// instruction reads is computed by a binary operation before it, no copy is emitted, and there
/// is one return for each return of the program.
pub proof fn lemma_lowering_numbers_values(instructions: Seq<IrInstruction>)
    requires
        instructions_bound(Set::empty(), instructions),
        instructions_binary_count(instructions) <= u32::MAX,
    ensures
        ({
            let out = lower_instructions_spec(Map::empty(), 0, instructions);
            &&& no_copy(out)
            &&& return_count(out) == ir_return_count(instructions)
            &&& consecutive(binary_results(out), 0)
            &&& reads_defined(out, Set::empty())
        }),
{
    assert(Map::<SymbolId, Operand>::empty().dom() =~= Set::<SymbolId>::empty());
    lemma_lower_instructions_laws(Map::empty(), 0, instructions, Set::empty());
}

} // verus!
