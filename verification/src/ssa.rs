use std::collections::{HashMap, HashSet};
use vstd::prelude::*;

use crate::ast::{binary_value, fold_binary, BinaryOp};
use crate::ir::{IrInstruction, IrProgram, IrValue};
use crate::cfg::{add_capped, capped, contains_id, lemma_capped_add, SIZE_CAP};
use crate::types::SymbolId;

verus! {

broadcast use vstd::std_specs::hash::group_hash_axioms;

pub type ValueId = u32;

/// An instruction operand: a constant or a previously defined value.
#[derive(Debug, Clone, Copy, PartialEq, Eq, Structural)]
pub enum Operand {
    Constant(i64),
    Value(ValueId),
}

/// A straight-line SSA instruction.
#[derive(Debug, Clone, Copy, PartialEq, Eq, Structural)]
pub enum SsaInstruction {
    Binary { result: ValueId, op: BinaryOp, left: Operand, right: Operand },
    Copy { result: ValueId, source: Operand },
    Return { value: Operand },
}

impl SsaInstruction {
    pub open spec fn spec_result(self) -> Option<ValueId> {
        match self {
            SsaInstruction::Binary { result, .. } => Some(result),
            SsaInstruction::Copy { result, .. } => Some(result),
            SsaInstruction::Return { .. } => None,
        }
    }

    pub fn result(&self) -> (result: Option<ValueId>)
        ensures
            result == self.spec_result(),
    {
        match self {
            SsaInstruction::Binary { result, .. } => Some(*result),
            SsaInstruction::Copy { result, .. } => Some(*result),
            SsaInstruction::Return { .. } => None,
        }
    }
}

/// A straight-line SSA program.
#[derive(Debug, Clone, PartialEq, Eq)]
pub struct SsaProgram {
    instructions: Vec<SsaInstruction>,
}

impl SsaProgram {
    pub closed spec fn spec_instructions(self) -> Seq<SsaInstruction> {
        self.instructions@
    }

    pub fn new(instructions: Vec<SsaInstruction>) -> (program: Self)
        ensures
            program.spec_instructions() == instructions@,
    {
        Self { instructions }
    }

    pub fn instructions(&self) -> (instructions: &[SsaInstruction])
        ensures
            instructions@ == self.spec_instructions(),
    {
        self.instructions.as_slice()
    }

    pub fn instruction_count(&self) -> (count: usize)
        ensures
            count == self.spec_instructions().len(),
    {
        self.instructions.len()
    }
}

/// The number of binary operations in a value tree.
pub open spec fn binary_count(value: IrValue) -> nat
    decreases value,
{
    match value {
        IrValue::Binary { left, right, .. } => binary_count(*left) + binary_count(*right) + 1,
        _ => 0,
    }
}

/// Whether every symbol a value tree reads is bound.
pub open spec fn value_bound(bound: Set<SymbolId>, value: IrValue) -> bool
    decreases value,
{
    match value {
        IrValue::Symbol { symbol_id, .. } => bound.contains(symbol_id),
        IrValue::Binary { left, right, .. } => value_bound(bound, *left) && value_bound(
            bound,
            *right,
        ),
        _ => true,
    }
}

/// The value tree an instruction evaluates.
pub open spec fn instruction_value(instruction: IrInstruction) -> IrValue {
    match instruction {
        IrInstruction::Bind { value, .. } => value,
        IrInstruction::Return { value } => value,
    }
}

/// Whether every instruction reads only symbols bound before it (or in `bound`).
pub open spec fn instructions_bound(bound: Set<SymbolId>, instructions: Seq<IrInstruction>) -> bool
    decreases instructions.len(),
{
    if instructions.len() == 0 {
        true
    } else {
        let rest = instructions.subrange(1, instructions.len() as int);
        value_bound(bound, instruction_value(instructions[0])) && match instructions[0] {
            IrInstruction::Bind { symbol_id, .. } => instructions_bound(bound.insert(symbol_id), rest),
            IrInstruction::Return { .. } => instructions_bound(bound, rest),
        }
    }
}

/// The total number of binary operations in a sequence of instructions.
pub open spec fn instructions_binary_count(instructions: Seq<IrInstruction>) -> nat
    decreases instructions.len(),
{
    if instructions.len() == 0 {
        0
    } else {
        binary_count(instruction_value(instructions[0])) + instructions_binary_count(
            instructions.subrange(1, instructions.len() as int),
        )
    }
}

/// Lowering of a value tree: its operand, the instructions computing it (each binary operation
/// gets the next fresh value id, operands first), and the next fresh id.
pub open spec fn lower_value_spec(symbols: Map<SymbolId, Operand>, next: int, value: IrValue) -> (
    Operand,
    Seq<SsaInstruction>,
    int,
)
    decreases value,
{
    match value {
        IrValue::Constant { value, .. } => (Operand::Constant(value), Seq::empty(), next),
        IrValue::Boolean { value, .. } => (
            Operand::Constant(if value { 1i64 } else { 0i64 }),
            Seq::empty(),
            next,
        ),
        IrValue::Symbol { symbol_id, .. } => (symbols[symbol_id], Seq::empty(), next),
        IrValue::Binary { left, op, right, .. } => {
            let (l, li, n1) = lower_value_spec(symbols, next, *left);
            let (r, ri, n2) = lower_value_spec(symbols, n1, *right);
            (
                Operand::Value(n2 as ValueId),
                li + ri + seq![
                    SsaInstruction::Binary { result: n2 as ValueId, op, left: l, right: r },
                ],
                n2 + 1,
            )
        },
    }
}

/// Lowering of a sequence of instructions: bindings record the operand of their symbol, returns
/// emit a return of their operand.
pub open spec fn lower_instructions_spec(
    symbols: Map<SymbolId, Operand>,
    next: int,
    instructions: Seq<IrInstruction>,
) -> Seq<SsaInstruction>
    decreases instructions.len(),
{
    if instructions.len() == 0 {
        Seq::empty()
    } else {
        let rest = instructions.subrange(1, instructions.len() as int);
        let (operand, emitted, n) = lower_value_spec(
            symbols,
            next,
            instruction_value(instructions[0]),
        );
        match instructions[0] {
            IrInstruction::Bind { symbol_id, .. } => emitted + lower_instructions_spec(
                symbols.insert(symbol_id, operand),
                n,
                rest,
            ),
            IrInstruction::Return { .. } => emitted + seq![SsaInstruction::Return { value: operand }]
                + lower_instructions_spec(symbols, n, rest),
        }
    }
}

pub(crate) proof fn lemma_lower_value_next(symbols: Map<SymbolId, Operand>, next: int, value: IrValue)
    ensures
        lower_value_spec(symbols, next, value).2 == next + binary_count(value),
    decreases value,
{
    if let IrValue::Binary { left, right, .. } = value {
        lemma_lower_value_next(symbols, next, *left);
        lemma_lower_value_next(symbols, next + binary_count(*left), *right);
    }
}

/// Whether every symbol a value tree reads is a key of `symbols` or in `extra`.
fn value_bound_exec(symbols: &HashMap<SymbolId, Operand>, extra: &Vec<SymbolId>, value: &IrValue) -> (ok: bool)
    ensures
        ok == value_bound(symbols@.dom().union(extra@.to_set()), *value),
    decreases value,
{
    match value {
        IrValue::Symbol { symbol_id, .. } => symbols.contains_key(symbol_id) || contains_id(extra, *symbol_id),
        IrValue::Binary { left, right, .. } => value_bound_exec(symbols, extra, left) && value_bound_exec(
            symbols,
            extra,
            right,
        ),
        _ => true,
    }
}

/// The number of binary operations in a value tree, capped.
fn binary_count_capped(value: &IrValue) -> (n: u64)
    ensures
        n == capped(binary_count(*value)),
    decreases value,
{
    match value {
        IrValue::Binary { left, right, .. } => {
            let l = binary_count_capped(left);
            let r = binary_count_capped(right);
            proof {
                lemma_capped_add(binary_count(**left), binary_count(**right));
                lemma_capped_add(binary_count(**left) + binary_count(**right), 1);
            }
            let both = add_capped(l, r);
            add_capped(both, 1)
        },
        _ => 0,
    }
}

/// Lowers the linear representation into SSA form.
pub struct SsaLowerer {
    next_value: ValueId,
    symbols: HashMap<SymbolId, Operand>,
    instructions: Vec<SsaInstruction>,
}

impl Default for SsaLowerer {
    fn default() -> (lowerer: Self)
        ensures
            lowerer.spec_symbols() == Map::<SymbolId, Operand>::empty(),
            lowerer.spec_next_value() == 0,
            lowerer.spec_emitted() == Seq::<SsaInstruction>::empty(),
    {
        Self::new()
    }
}

impl SsaLowerer {
    /// The operand each lowered symbol stands for.
    pub closed spec fn spec_symbols(self) -> Map<SymbolId, Operand> {
        self.symbols@
    }

    /// The next fresh value id.
    pub closed spec fn spec_next_value(self) -> int {
        self.next_value as int
    }

    /// The instructions emitted so far.
    pub closed spec fn spec_emitted(self) -> Seq<SsaInstruction> {
        self.instructions@
    }

    pub fn new() -> (lowerer: Self)
        ensures
            lowerer.spec_symbols() == Map::<SymbolId, Operand>::empty(),
            lowerer.spec_next_value() == 0,
            lowerer.spec_emitted() == Seq::<SsaInstruction>::empty(),
    {
        Self { next_value: 0, symbols: HashMap::new(), instructions: Vec::new() }
    }

    /// Whether the lowerer can lower the program: every instruction reads only symbols bound
    /// before it, and its binary operations keep the value counter within 32 bits.
    pub fn can_lower(&self, program: &IrProgram) -> (ok: bool)
        ensures
            ok == (instructions_bound(self.spec_symbols().dom(), program.spec_instructions())
                && self.spec_next_value() + instructions_binary_count(program.spec_instructions())
                <= u32::MAX),
    {
        let instructions = program.instructions();
        let ghost all = instructions@;
        let ghost n = all.len() as int;
        let mut extra: Vec<SymbolId> = Vec::new();
        let mut bound_ok = true;
        let mut count: u64 = 0;
        let ghost mut counted: nat = 0;
        proof {
            assert(all.subrange(0, n) =~= all);
            assert(self.symbols@.dom().union(extra@.to_set()) =~= self.symbols@.dom());
        }
        let mut i: usize = 0;
        while i < instructions.len()
            invariant
                all == instructions@,
                n == all.len(),
                0 <= i <= n,
                bound_ok ==> (instructions_bound(self.symbols@.dom(), all) == instructions_bound(
                    self.symbols@.dom().union(extra@.to_set()),
                    all.subrange(i as int, n),
                )),
                !bound_ok ==> !instructions_bound(self.symbols@.dom(), all),
                count == capped(counted),
                counted + instructions_binary_count(all.subrange(i as int, n))
                    == instructions_binary_count(all),
            decreases n - i,
        {
            let ghost rest = all.subrange(i as int, n);
            proof {
                assert(rest[0] == all[i as int]);
                assert(rest.subrange(1, rest.len() as int) =~= all.subrange(i + 1, n));
            }
            let value = match &instructions[i] {
                IrInstruction::Bind { value, .. } => value,
                IrInstruction::Return { value } => value,
            };
            proof {
                lemma_capped_add(counted, binary_count(*value));
            }
            let here = binary_count_capped(value);
            count = add_capped(count, here);
            proof {
                counted = counted + binary_count(*value);
            }
            if bound_ok {
                if !value_bound_exec(&self.symbols, &extra, value) {
                    bound_ok = false;
                } else if let IrInstruction::Bind { symbol_id, .. } = &instructions[i] {
                    let ghost before = extra@;
                    extra.push(*symbol_id);
                    proof {
                        assert(extra@.to_set() =~= before.to_set().insert(*symbol_id)) by {
                            assert forall|x: SymbolId| extra@.to_set().contains(x) <==> before.to_set().insert(
                                *symbol_id,
                            ).contains(x) by {
                                if extra@.contains(x) {
                                    let k = choose|k: int| 0 <= k < extra@.len() && extra@[k] == x;
                                    if k < before.len() {
                                        assert(before[k] == x);
                                    }
                                }
                                if before.contains(x) {
                                    let k = choose|k: int| 0 <= k < before.len() && before[k] == x;
                                    assert(extra@[k] == x);
                                }
                                if x == *symbol_id {
                                    assert(extra@[before.len() as int] == x);
                                }
                            }
                        }
                        assert(self.symbols@.dom().union(extra@.to_set()) =~= self.symbols@.dom().union(
                            before.to_set(),
                        ).insert(*symbol_id));
                    }
                }
            }
            i = i + 1;
        }
        proof {
            assert(all.subrange(n, n) =~= Seq::<IrInstruction>::empty());
        }
        if !bound_ok || count >= SIZE_CAP {
            false
        } else {
            (self.next_value as u64) + count <= 0xffff_ffff
        }
    }

    /// Lowers a program whose instructions read only symbols bound before them.
    pub fn lower(self, program: &IrProgram) -> (ssa: SsaProgram)
        requires
            instructions_bound(self.spec_symbols().dom(), program.spec_instructions()),
            self.spec_next_value() + instructions_binary_count(program.spec_instructions())
                <= u32::MAX,
        ensures
            ssa.spec_instructions() == self.spec_emitted() + lower_instructions_spec(
                self.spec_symbols(),
                self.spec_next_value(),
                program.spec_instructions(),
            ),
    {
        let mut this = self;
        let instructions = program.instructions();
        let ghost all = instructions@;
        let ghost start = this.instructions@;
        let ghost symbols0 = this.symbols@;
        let ghost next0 = this.next_value as int;
        let mut i: usize = 0;
        proof {
            assert(all.subrange(0, all.len() as int) =~= all);
        }
        while i < instructions.len()
            invariant
                all == instructions@,
                0 <= i <= all.len(),
                instructions_bound(this.symbols@.dom(), all.subrange(i as int, all.len() as int)),
                this.next_value + instructions_binary_count(
                    all.subrange(i as int, all.len() as int),
                ) <= u32::MAX,
                start + lower_instructions_spec(symbols0, next0, all) == this.instructions@
                    + lower_instructions_spec(
                    this.symbols@,
                    this.next_value as int,
                    all.subrange(i as int, all.len() as int),
                ),
            decreases all.len() - i,
        {
            let ghost rest = all.subrange(i as int, all.len() as int);
            proof {
                assert(rest[0] == all[i as int]);
                assert(rest.subrange(1, rest.len() as int) =~= all.subrange(
                    i + 1,
                    all.len() as int,
                ));
            }
            let ghost before = this.instructions@;
            let ghost sym_before = this.symbols@;
            let ghost next_before = this.next_value as int;
            let ghost rest_after = all.subrange(i + 1, all.len() as int);
            let ghost lowered = lower_value_spec(
                sym_before,
                next_before,
                instruction_value(all[i as int]),
            );
            proof {
                lemma_lower_value_next(sym_before, next_before, instruction_value(all[i as int]));
            }
            match &instructions[i] {
                IrInstruction::Bind { symbol_id, value } => {
                    let operand = this.lower_value(value);
                    this.symbols.insert(*symbol_id, operand);
                    proof {
                        assert(before + (lowered.1 + lower_instructions_spec(
                            this.symbols@,
                            lowered.2,
                            rest_after,
                        )) =~= this.instructions@ + lower_instructions_spec(
                            this.symbols@,
                            lowered.2,
                            rest_after,
                        ));
                    }
                },
                IrInstruction::Return { value } => {
                    let operand = this.lower_value(value);
                    this.instructions.push(SsaInstruction::Return { value: operand });
                    proof {
                        assert(before + (lowered.1 + seq![SsaInstruction::Return { value: operand }]
                            + lower_instructions_spec(sym_before, lowered.2, rest_after))
                            =~= this.instructions@ + lower_instructions_spec(
                            sym_before,
                            lowered.2,
                            rest_after,
                        ));
                    }
                },
            }
            i = i + 1;
        }
        proof {
            assert(all.subrange(i as int, all.len() as int) =~= Seq::<IrInstruction>::empty());
            assert(this.instructions@ + Seq::<SsaInstruction>::empty() =~= this.instructions@);
        }
        SsaProgram::new(this.instructions)
    }

    fn lower_value(&mut self, value: &IrValue) -> (operand: Operand)
        requires
            value_bound(old(self).spec_symbols().dom(), *value),
            old(self).spec_next_value() + binary_count(*value) <= u32::MAX,
        ensures
            final(self).spec_symbols() == old(self).spec_symbols(),
            ({
                let (o, emitted, n) = lower_value_spec(
                    old(self).spec_symbols(),
                    old(self).spec_next_value(),
                    *value,
                );
                &&& operand == o
                &&& final(self).spec_emitted() == old(self).spec_emitted() + emitted
                &&& final(self).spec_next_value() == n
            }),
        decreases value,
    {
        match value {
            IrValue::Constant { value, .. } => Operand::Constant(*value),
            IrValue::Boolean { value, .. } => Operand::Constant(if *value { 1 } else { 0 }),
            IrValue::Symbol { symbol_id, .. } => {
                match self.symbols.get(symbol_id) {
                    Some(operand) => *operand,
                    None => Operand::Constant(0),
                }
            },
            IrValue::Binary { left, op, right, .. } => {
                let ghost e0 = self.instructions@;
                proof {
                    lemma_lower_value_next(self.symbols@, self.next_value as int, **left);
                }
                let left = self.lower_value(left);
                proof {
                    lemma_lower_value_next(self.symbols@, self.next_value as int, **right);
                }
                let right = self.lower_value(right);
                let result = self.allocate_value();
                self.instructions.push(SsaInstruction::Binary { result, op: *op, left, right });
                proof {
                    assert(self.instructions@ =~= e0 + lower_value_spec(
                        old(self).spec_symbols(),
                        old(self).spec_next_value(),
                        *value,
                    ).1);
                }
                Operand::Value(result)
            },
        }
    }

    fn allocate_value(&mut self) -> (id: ValueId)
        requires
            old(self).spec_next_value() < u32::MAX,
        ensures
            id == old(self).spec_next_value(),
            final(self).spec_next_value() == old(self).spec_next_value() + 1,
            final(self).spec_symbols() == old(self).spec_symbols(),
            final(self).spec_emitted() == old(self).spec_emitted(),
    {
        let id = self.next_value;
        self.next_value = self.next_value + 1;
        id
    }
}

/// What the optimizer did to a program.
#[derive(Debug, Clone, Copy, PartialEq, Eq)]
pub struct OptimizationStats {
    pub before: usize,
    pub after: usize,
    pub constants_folded: usize,
    pub copies_propagated: usize,
    pub instructions_eliminated: usize,
}

impl OptimizationStats {
    /// The instructions removed and the instructions there were: the reduction is their ratio.
    pub fn reduction(&self) -> (ratio: (usize, usize))
        requires
            self.after <= self.before,
        ensures
            ratio.0 == self.before - self.after,
            ratio.1 == self.before,
    {
        (self.before - self.after, self.before)
    }
}

/// An operand with known constant values substituted.
pub open spec fn resolve_constant_spec(operand: Operand, constants: Map<ValueId, i64>) -> Operand {
    match operand {
        Operand::Value(id) => if constants.contains_key(id) {
            Operand::Constant(constants[id])
        } else {
            operand
        },
        Operand::Constant(_) => operand,
    }
}

/// Constant folding: binary operations whose operands are known constants and whose value fits
/// become copies of that value; known constants are substituted into every operand. Also counts
/// the folded operations.
pub open spec fn constant_fold_spec(constants: Map<ValueId, i64>, instructions: Seq<SsaInstruction>) -> (
    Seq<SsaInstruction>,
    nat,
)
    decreases instructions.len(),
{
    if instructions.len() == 0 {
        (Seq::empty(), 0)
    } else {
        let rest = instructions.subrange(1, instructions.len() as int);
        match instructions[0] {
            SsaInstruction::Binary { result, op, left, right } => {
                let l = resolve_constant_spec(left, constants);
                let r = resolve_constant_spec(right, constants);
                let folded = match (l, r) {
                    (Operand::Constant(a), Operand::Constant(b)) => binary_value(op, a, b),
                    _ => None,
                };
                match folded {
                    Some(v) => {
                        let (out, n) = constant_fold_spec(constants.insert(result, v), rest);
                        (
                            seq![SsaInstruction::Copy { result, source: Operand::Constant(v) }]
                                + out,
                            n + 1,
                        )
                    },
                    None => {
                        let (out, n) = constant_fold_spec(constants, rest);
                        (seq![SsaInstruction::Binary { result, op, left: l, right: r }] + out, n)
                    },
                }
            },
            SsaInstruction::Copy { result, source } => {
                let s = resolve_constant_spec(source, constants);
                let next = match s {
                    Operand::Constant(v) => constants.insert(result, v),
                    _ => constants,
                };
                let (out, n) = constant_fold_spec(next, rest);
                (seq![SsaInstruction::Copy { result, source: s }] + out, n)
            },
            SsaInstruction::Return { value } => {
                let (out, n) = constant_fold_spec(constants, rest);
                (
                    seq![SsaInstruction::Return { value: resolve_constant_spec(value, constants) }]
                        + out,
                    n,
                )
            },
        }
    }
}

/// Follows recorded copies from `operand`, stopping at a constant, at a value that is no copy,
/// or at a value already visited.
pub open spec fn resolve_copy_spec(
    copies: Map<ValueId, Operand>,
    operand: Operand,
    visited: Set<ValueId>,
) -> Operand
    decreases copies.dom().difference(visited).len(),
{
    match operand {
        Operand::Constant(_) => operand,
        Operand::Value(id) => if visited.contains(id) || !copies.contains_key(id)
            || !copies.dom().finite() {
            operand
        } else {
            proof {
                lemma_difference_shrinks(copies.dom(), visited, id);
            }
            resolve_copy_spec(copies, copies[id], visited.insert(id))
        },
    }
}

/// Visiting one more element of a finite domain leaves fewer unvisited.
pub proof fn lemma_difference_shrinks(dom: Set<ValueId>, visited: Set<ValueId>, id: ValueId)
    requires
        dom.finite(),
        dom.contains(id),
        !visited.contains(id),
    ensures
        dom.difference(visited.insert(id)).len() < dom.difference(visited).len(),
{
    let d = dom.difference(visited);
    vstd::set_lib::lemma_len_subset(d, dom);
    assert(dom.difference(visited.insert(id)) =~= d.remove(id));
    assert(d.contains(id));
}

pub open spec fn changed(a: Operand, b: Operand) -> nat {
    if a != b {
        1
    } else {
        0
    }
}

/// Copy propagation: every operand is replaced by the end of its copy chain; counts the operands
/// of binary operations and returns that changed.
pub open spec fn copy_propagate_spec(copies: Map<ValueId, Operand>, instructions: Seq<SsaInstruction>) -> (
    Seq<SsaInstruction>,
    nat,
)
    decreases instructions.len(),
{
    if instructions.len() == 0 {
        (Seq::empty(), 0)
    } else {
        let rest = instructions.subrange(1, instructions.len() as int);
        match instructions[0] {
            SsaInstruction::Copy { result, source } => {
                let s = resolve_copy_spec(copies, source, Set::empty());
                let (out, n) = copy_propagate_spec(copies.insert(result, s), rest);
                (seq![SsaInstruction::Copy { result, source: s }] + out, n)
            },
            SsaInstruction::Binary { result, op, left, right } => {
                let l = resolve_copy_spec(copies, left, Set::empty());
                let r = resolve_copy_spec(copies, right, Set::empty());
                let (out, n) = copy_propagate_spec(copies, rest);
                (
                    seq![SsaInstruction::Binary { result, op, left: l, right: r }] + out,
                    n + changed(l, left) + changed(r, right),
                )
            },
            SsaInstruction::Return { value } => {
                let v = resolve_copy_spec(copies, value, Set::empty());
                let (out, n) = copy_propagate_spec(copies, rest);
                (seq![SsaInstruction::Return { value: v }] + out, n + changed(v, value))
            },
        }
    }
}

pub open spec fn mark_operand_spec(operand: Operand, live: Set<ValueId>) -> Set<ValueId> {
    match operand {
        Operand::Value(id) => live.insert(id),
        Operand::Constant(_) => live,
    }
}

/// Dead-code elimination, scanning backwards from the end with the set of values read later:
/// returns are kept, and a binary operation or copy is kept only when its result is read later.
/// Also counts the instructions removed.
pub open spec fn dead_code_spec(live: Set<ValueId>, instructions: Seq<SsaInstruction>) -> (
    Seq<SsaInstruction>,
    nat,
)
    decreases instructions.len(),
{
    if instructions.len() == 0 {
        (Seq::empty(), 0)
    } else {
        let init = instructions.drop_last();
        let last = instructions.last();
        match last {
            SsaInstruction::Return { value } => {
                let (kept, n) = dead_code_spec(mark_operand_spec(value, live), init);
                (kept.push(last), n)
            },
            SsaInstruction::Binary { result, left, right, .. } => if live.contains(result) {
                let (kept, n) = dead_code_spec(
                    mark_operand_spec(right, mark_operand_spec(left, live.remove(result))),
                    init,
                );
                (kept.push(last), n)
            } else {
                let (kept, n) = dead_code_spec(live, init);
                (kept, n + 1)
            },
            SsaInstruction::Copy { result, source } => if live.contains(result) {
                let (kept, n) = dead_code_spec(mark_operand_spec(source, live.remove(result)), init);
                (kept.push(last), n)
            } else {
                let (kept, n) = dead_code_spec(live, init);
                (kept, n + 1)
            },
        }
    }
}

/// The optimizer's output and statistics, as the three passes in order define them.
pub open spec fn optimize_spec(instructions: Seq<SsaInstruction>) -> (
    Seq<SsaInstruction>,
    OptimizationStats,
) {
    let (folded, constants_folded) = constant_fold_spec(Map::empty(), instructions);
    let (propagated, copies_propagated) = copy_propagate_spec(Map::empty(), folded);
    let (optimized, eliminated) = dead_code_spec(Set::empty(), propagated);
    (
        optimized,
        OptimizationStats {
            before: instructions.len() as usize,
            after: optimized.len() as usize,
            constants_folded: constants_folded as usize,
            copies_propagated: copies_propagated as usize,
            instructions_eliminated: eliminated as usize,
        },
    )
}

proof fn lemma_constant_fold_len(constants: Map<ValueId, i64>, instructions: Seq<SsaInstruction>)
    ensures
        constant_fold_spec(constants, instructions).0.len() == instructions.len(),
        constant_fold_spec(constants, instructions).1 <= instructions.len(),
    decreases instructions.len(),
{
    if instructions.len() > 0 {
        let rest = instructions.subrange(1, instructions.len() as int);
        match instructions[0] {
            SsaInstruction::Binary { result, op, left, right } => {
                let l = resolve_constant_spec(left, constants);
                let r = resolve_constant_spec(right, constants);
                let folded = match (l, r) {
                    (Operand::Constant(a), Operand::Constant(b)) => binary_value(op, a, b),
                    _ => None,
                };
                match folded {
                    Some(v) => lemma_constant_fold_len(constants.insert(result, v), rest),
                    None => lemma_constant_fold_len(constants, rest),
                }
            },
            SsaInstruction::Copy { result, source } => {
                let s = resolve_constant_spec(source, constants);
                let next = match s {
                    Operand::Constant(v) => constants.insert(result, v),
                    _ => constants,
                };
                lemma_constant_fold_len(next, rest);
            },
            SsaInstruction::Return { .. } => lemma_constant_fold_len(constants, rest),
        }
    }
}

proof fn lemma_copy_propagate_len(copies: Map<ValueId, Operand>, instructions: Seq<SsaInstruction>)
    ensures
        copy_propagate_spec(copies, instructions).0.len() == instructions.len(),
        copy_propagate_spec(copies, instructions).1 <= 2 * instructions.len(),
    decreases instructions.len(),
{
    if instructions.len() > 0 {
        let rest = instructions.subrange(1, instructions.len() as int);
        match instructions[0] {
            SsaInstruction::Copy { result, source } => {
                let s = resolve_copy_spec(copies, source, Set::empty());
                lemma_copy_propagate_len(copies.insert(result, s), rest);
            },
            _ => lemma_copy_propagate_len(copies, rest),
        }
    }
}

proof fn lemma_dead_code_len(live: Set<ValueId>, instructions: Seq<SsaInstruction>)
    ensures
        dead_code_spec(live, instructions).0.len() + dead_code_spec(live, instructions).1
            == instructions.len(),
    decreases instructions.len(),
{
    if instructions.len() > 0 {
        let init = instructions.drop_last();
        match instructions.last() {
            SsaInstruction::Return { value } => lemma_dead_code_len(mark_operand_spec(value, live), init),
            SsaInstruction::Binary { result, left, right, .. } => if live.contains(result) {
                lemma_dead_code_len(
                    mark_operand_spec(right, mark_operand_spec(left, live.remove(result))),
                    init,
                );
            } else {
                lemma_dead_code_len(live, init);
            },
            SsaInstruction::Copy { result, source } => if live.contains(result) {
                lemma_dead_code_len(mark_operand_spec(source, live.remove(result)), init);
            } else {
                lemma_dead_code_len(live, init);
            },
        }
    }
}

/// The SSA optimizer: constant folding, then copy propagation, then dead-code elimination.
pub struct Optimizer;

impl Optimizer {
    pub fn optimize(program: &SsaProgram) -> (result: (SsaProgram, OptimizationStats))
        requires
            program.spec_instructions().len() <= usize::MAX / 2,
        ensures
            (result.0.spec_instructions(), result.1) == optimize_spec(program.spec_instructions()),
            result.1.before == program.spec_instructions().len(),
            result.1.after == result.0.spec_instructions().len(),
            result.1.after <= result.1.before,
            result.1.before - result.1.after == result.1.instructions_eliminated,
    {
        let before = program.instruction_count();
        let (folded, constants_folded) = constant_fold(program);
        proof {
            lemma_constant_fold_len(Map::empty(), program.spec_instructions());
        }
        let (propagated, copies_propagated) = copy_propagate(&folded);
        proof {
            lemma_copy_propagate_len(Map::empty(), folded.spec_instructions());
            lemma_dead_code_len(Set::empty(), propagated.spec_instructions());
        }
        let (optimized, instructions_eliminated) = dead_code_eliminate(&propagated);
        let after = optimized.instruction_count();
        (
            optimized,
            OptimizationStats {
                before,
                after,
                constants_folded,
                copies_propagated,
                instructions_eliminated,
            },
        )
    }
}

fn constant_fold(program: &SsaProgram) -> (result: (SsaProgram, usize))
    ensures
        ({
            let (out, n) = constant_fold_spec(Map::empty(), program.spec_instructions());
            result.0.spec_instructions() == out && result.1 == n
        }),
{
    let input = program.instructions();
    let ghost all = input@;
    let mut constants: HashMap<ValueId, i64> = HashMap::new();
    let mut folded: usize = 0;
    let mut instructions: Vec<SsaInstruction> = Vec::new();
    let mut i: usize = 0;
    proof {
        assert(all.subrange(0, all.len() as int) =~= all);
        lemma_constant_fold_len(Map::empty(), all);
    }
    while i < input.len()
        invariant
            all == input@,
            0 <= i <= all.len(),
            folded <= i,
            ({
                let (out, n) = constant_fold_spec(
                    constants@,
                    all.subrange(i as int, all.len() as int),
                );
                constant_fold_spec(Map::empty(), all).0 == instructions@ + out
                    && constant_fold_spec(Map::empty(), all).1 == folded + n
            }),
        decreases all.len() - i,
    {
        let ghost rest = all.subrange(i as int, all.len() as int);
        proof {
            assert(rest[0] == all[i as int]);
            assert(rest.subrange(1, rest.len() as int) =~= all.subrange(i + 1, all.len() as int));
            lemma_constant_fold_len(constants@, rest);
        }
        let ghost before = instructions@;
        match input[i] {
            SsaInstruction::Binary { result, op, left, right } => {
                let l = resolve_constant(left, &constants);
                let r = resolve_constant(right, &constants);
                let value = match (l, r) {
                    (Operand::Constant(a), Operand::Constant(b)) => fold_binary(op, a, b),
                    _ => None,
                };
                match value {
                    Some(v) => {
                        constants.insert(result, v);
                        instructions.push(SsaInstruction::Copy { result, source: Operand::Constant(v) });
                        folded = folded + 1;
                    },
                    None => {
                        instructions.push(SsaInstruction::Binary { result, op, left: l, right: r });
                    },
                }
            },
            SsaInstruction::Copy { result, source } => {
                let s = resolve_constant(source, &constants);
                if let Operand::Constant(v) = s {
                    constants.insert(result, v);
                }
                instructions.push(SsaInstruction::Copy { result, source: s });
            },
            SsaInstruction::Return { value } => {
                let v = resolve_constant(value, &constants);
                instructions.push(SsaInstruction::Return { value: v });
            },
        }
        proof {
            let (out, n) = constant_fold_spec(constants@, all.subrange(i + 1, all.len() as int));
            assert(before + (seq![instructions@.last()] + out) =~= instructions@ + out);
        }
        i = i + 1;
    }
    proof {
        assert(all.subrange(i as int, all.len() as int) =~= Seq::<SsaInstruction>::empty());
        assert(instructions@ + Seq::<SsaInstruction>::empty() =~= instructions@);
    }
    (SsaProgram::new(instructions), folded)
}

fn resolve_constant(operand: Operand, constants: &HashMap<ValueId, i64>) -> (resolved: Operand)
    ensures
        resolved == resolve_constant_spec(operand, constants@),
{
    match operand {
        Operand::Value(id) => match constants.get(&id) {
            Some(v) => Operand::Constant(*v),
            None => operand,
        },
        Operand::Constant(_) => operand,
    }
}

fn copy_propagate(program: &SsaProgram) -> (result: (SsaProgram, usize))
    requires
        program.spec_instructions().len() <= usize::MAX / 2,
    ensures
        ({
            let (out, n) = copy_propagate_spec(Map::empty(), program.spec_instructions());
            result.0.spec_instructions() == out && result.1 == n
        }),
{
    let input = program.instructions();
    let ghost all = input@;
    let mut copies: HashMap<ValueId, Operand> = HashMap::new();
    let mut propagated: usize = 0;
    let mut instructions: Vec<SsaInstruction> = Vec::new();
    let mut i: usize = 0;
    proof {
        assert(all.subrange(0, all.len() as int) =~= all);
    }
    while i < input.len()
        invariant
            all == input@,
            all.len() <= usize::MAX / 2,
            0 <= i <= all.len(),
            propagated <= 2 * i,
            ({
                let (out, n) = copy_propagate_spec(
                    copies@,
                    all.subrange(i as int, all.len() as int),
                );
                copy_propagate_spec(Map::empty(), all).0 == instructions@ + out
                    && copy_propagate_spec(Map::empty(), all).1 == propagated + n
            }),
        decreases all.len() - i,
    {
        let ghost rest = all.subrange(i as int, all.len() as int);
        proof {
            assert(rest[0] == all[i as int]);
            assert(rest.subrange(1, rest.len() as int) =~= all.subrange(i + 1, all.len() as int));
        }
        let ghost before = instructions@;
        match input[i] {
            SsaInstruction::Copy { result, source } => {
                let s = resolve_copy(source, &copies);
                copies.insert(result, s);
                instructions.push(SsaInstruction::Copy { result, source: s });
            },
            SsaInstruction::Binary { result, op, left, right } => {
                let l = resolve_copy(left, &copies);
                let r = resolve_copy(right, &copies);
                if l != left {
                    propagated = propagated + 1;
                }
                if r != right {
                    propagated = propagated + 1;
                }
                instructions.push(SsaInstruction::Binary { result, op, left: l, right: r });
            },
            SsaInstruction::Return { value } => {
                let v = resolve_copy(value, &copies);
                if v != value {
                    propagated = propagated + 1;
                }
                instructions.push(SsaInstruction::Return { value: v });
            },
        }
        proof {
            let (out, n) = copy_propagate_spec(copies@, all.subrange(i + 1, all.len() as int));
            assert(before + (seq![instructions@.last()] + out) =~= instructions@ + out);
        }
        i = i + 1;
    }
    proof {
        assert(all.subrange(i as int, all.len() as int) =~= Seq::<SsaInstruction>::empty());
        assert(instructions@ + Seq::<SsaInstruction>::empty() =~= instructions@);
    }
    (SsaProgram::new(instructions), propagated)
}

fn resolve_copy(operand: Operand, copies: &HashMap<ValueId, Operand>) -> (resolved: Operand)
    ensures
        resolved == resolve_copy_spec(copies@, operand, Set::empty()),
{
    let mut visited: HashSet<ValueId> = HashSet::new();
    let mut current = operand;
    proof {
        assert(copies@.dom().finite());
    }
    loop
        invariant
            copies@.dom().finite(),
            resolve_copy_spec(copies@, operand, Set::empty()) == resolve_copy_spec(
                copies@,
                current,
                visited@,
            ),
        decreases copies@.dom().difference(visited@).len(),
    {
        let id = match current {
            Operand::Value(id) => id,
            Operand::Constant(_) => {
                return current;
            },
        };
        if visited.contains(&id) {
            return current;
        }
        let next = match copies.get(&id) {
            Some(next) => *next,
            None => {
                return current;
            },
        };
        proof {
            lemma_difference_shrinks(copies@.dom(), visited@, id);
        }
        visited.insert(id);
        current = next;
    }
}

fn dead_code_eliminate(program: &SsaProgram) -> (result: (SsaProgram, usize))
    ensures
        ({
            let (kept, n) = dead_code_spec(Set::empty(), program.spec_instructions());
            result.0.spec_instructions() == kept && result.1 == n
        }),
{
    let input = program.instructions();
    let ghost all = input@;
    let mut live: HashSet<ValueId> = HashSet::new();
    let mut kept: Vec<SsaInstruction> = Vec::new();
    let mut eliminated: usize = 0;
    let mut i: usize = input.len();
    proof {
        assert(all.subrange(0, all.len() as int) =~= all);
        lemma_dead_code_len(Set::empty(), all);
    }
    while i > 0
        invariant
            all == input@,
            0 <= i <= all.len(),
            eliminated + kept@.len() == all.len() - i,
            ({
                let (k, n) = dead_code_spec(live@, all.subrange(0, i as int));
                dead_code_spec(Set::empty(), all).0 == k + kept@.reverse()
                    && dead_code_spec(Set::empty(), all).1 == n + eliminated
            }),
        decreases i,
    {
        let ghost prefix = all.subrange(0, i as int);
        proof {
            assert(prefix.drop_last() =~= all.subrange(0, i - 1));
            assert(prefix.last() == all[i - 1]);
            lemma_dead_code_len(live@, prefix);
        }
        let ghost kept_before = kept@;
        let ghost live_before = live@;
        let instruction = input[i - 1];
        match instruction {
            SsaInstruction::Return { value } => {
                mark_operand(value, &mut live);
                kept.push(instruction);
            },
            SsaInstruction::Binary { result, left, right, .. } => {
                if live.remove(&result) {
                    mark_operand(left, &mut live);
                    mark_operand(right, &mut live);
                    kept.push(instruction);
                } else {
                    assert(live@ =~= live_before);
                    eliminated = eliminated + 1;
                }
            },
            SsaInstruction::Copy { result, source } => {
                if live.remove(&result) {
                    mark_operand(source, &mut live);
                    kept.push(instruction);
                } else {
                    assert(live@ =~= live_before);
                    eliminated = eliminated + 1;
                }
            },
        }
        proof {
            let (k, n) = dead_code_spec(live@, all.subrange(0, i - 1));
            let (k0, n0) = dead_code_spec(live_before, prefix);
            if kept@.len() > kept_before.len() {
                assert(k0 == k.push(instruction));
                assert(n0 == n);
                assert(kept@.reverse() =~= seq![instruction] + kept_before.reverse());
                assert(k.push(instruction) + kept_before.reverse() =~= k + kept@.reverse());
            }
        }
        i = i - 1;
    }
    let mut ordered: Vec<SsaInstruction> = Vec::new();
    let mut j: usize = kept.len();
    while j > 0
        invariant
            0 <= j <= kept@.len(),
            ordered@ =~= kept@.subrange(j as int, kept@.len() as int).reverse(),
        decreases j,
    {
        ordered.push(kept[j - 1]);
        j = j - 1;
        proof {
            assert(kept@.subrange(j as int, kept@.len() as int).reverse() =~= kept@.subrange(
                j + 1,
                kept@.len() as int,
            ).reverse().push(kept@[j as int]));
        }
    }
    proof {
        assert(all.subrange(0, 0) =~= Seq::<SsaInstruction>::empty());
        assert(kept@.subrange(0, kept@.len() as int) =~= kept@);
        assert(Seq::<SsaInstruction>::empty() + kept@.reverse() =~= kept@.reverse());
    }
    (SsaProgram::new(ordered), eliminated)
}

fn mark_operand(operand: Operand, live: &mut HashSet<ValueId>)
    ensures
        final(live)@ == mark_operand_spec(operand, old(live)@),
{
    if let Operand::Value(id) = operand {
        live.insert(id);
    }
}

} // verus!
