use std::collections::{BTreeSet, HashMap};
use vstd::prelude::*;

use crate::ast::BinaryOp;
use crate::build_laws::{
    block_size, expr_ops, lemma_within_limits_fits, statement_size, within_limits,
};
use crate::types::{
    typed_statements_view, SpecTypedStatement, SymbolId, TypedExpr, TypedProgram, TypedStatement,
};

verus! {

broadcast use vstd::laws_cmp::group_laws_cmp, vstd::std_specs::btree::group_btree_axioms,
    vstd::std_specs::hash::group_hash_axioms;

pub type BlockId = u32;

pub type ValueId = u32;

/// An instruction operand: a constant or a value computed earlier.
#[derive(Debug, Clone, Copy, PartialEq, Eq, Structural)]
pub enum Operand {
    Constant(i64),
    Value(ValueId),
}

/// An instruction of a basic block.
#[derive(Debug, PartialEq, Eq)]
pub enum Instruction {
    Binary { result: ValueId, op: BinaryOp, left: Operand, right: Operand },
    Bind { symbol_id: SymbolId, value: Operand },
    Phi { result: ValueId, symbol_id: SymbolId, incomings: Vec<(BlockId, Operand)> },
}

/// The mathematical form of an instruction.
pub enum SpecInstruction {
    Binary { result: ValueId, op: BinaryOp, left: Operand, right: Operand },
    Bind { symbol_id: SymbolId, value: Operand },
    Phi { result: ValueId, symbol_id: SymbolId, incomings: Seq<(BlockId, Operand)> },
}

impl View for Instruction {
    type V = SpecInstruction;

    open spec fn view(&self) -> SpecInstruction {
        match self {
            Instruction::Binary { result, op, left, right } => SpecInstruction::Binary {
                result: *result,
                op: *op,
                left: *left,
                right: *right,
            },
            Instruction::Bind { symbol_id, value } => SpecInstruction::Bind {
                symbol_id: *symbol_id,
                value: *value,
            },
            Instruction::Phi { result, symbol_id, incomings } => SpecInstruction::Phi {
                result: *result,
                symbol_id: *symbol_id,
                incomings: incomings@,
            },
        }
    }
}

fn copy_incomings(incomings: &Vec<(BlockId, Operand)>) -> (copy: Vec<(BlockId, Operand)>)
    ensures
        copy@ == incomings@,
{
    let mut copy: Vec<(BlockId, Operand)> = Vec::new();
    let mut i: usize = 0;
    while i < incomings.len()
        invariant
            0 <= i <= incomings.len(),
            copy@ =~= incomings@.subrange(0, i as int),
        decreases incomings.len() - i,
    {
        copy.push(incomings[i]);
        i = i + 1;
    }
    proof {
        assert(copy@ =~= incomings@);
    }
    copy
}

impl Clone for Instruction {
    fn clone(&self) -> (copy: Self)
        ensures
            copy@ == self@,
    {
        match self {
            Instruction::Binary { result, op, left, right } => Instruction::Binary {
                result: *result,
                op: *op,
                left: *left,
                right: *right,
            },
            Instruction::Bind { symbol_id, value } => Instruction::Bind {
                symbol_id: *symbol_id,
                value: *value,
            },
            Instruction::Phi { result, symbol_id, incomings } => Instruction::Phi {
                result: *result,
                symbol_id: *symbol_id,
                incomings: copy_incomings(incomings),
            },
        }
    }
}

/// The way a basic block ends.
#[derive(Debug, Clone, Copy, PartialEq, Eq, Structural)]
pub enum Terminator {
    Return(Operand),
    Jump(BlockId),
    Branch { condition: Operand, then_block: BlockId, else_block: BlockId },
}

/// A basic block: straight-line instructions and, once finished, a terminator.
#[derive(Debug, PartialEq, Eq)]
pub struct BasicBlock {
    id: BlockId,
    instructions: Vec<Instruction>,
    terminator: Option<Terminator>,
}

/// The mathematical form of a basic block.
pub struct SpecBlock {
    pub id: BlockId,
    pub instructions: Seq<SpecInstruction>,
    pub terminator: Option<Terminator>,
}

pub open spec fn instructions_view(instructions: Seq<Instruction>) -> Seq<SpecInstruction> {
    instructions.map_values(|i: Instruction| i@)
}

impl View for BasicBlock {
    type V = SpecBlock;

    closed spec fn view(&self) -> SpecBlock {
        SpecBlock {
            id: self.id,
            instructions: instructions_view(self.instructions@),
            terminator: self.terminator,
        }
    }
}

impl BasicBlock {
    pub fn id(&self) -> (id: BlockId)
        ensures
            id == self@.id,
    {
        self.id
    }

    pub fn instructions(&self) -> (instructions: &[Instruction])
        ensures
            instructions_view(instructions@) == self@.instructions,
    {
        self.instructions.as_slice()
    }

    pub fn terminator(&self) -> (terminator: Option<&Terminator>)
        ensures
            match terminator {
                Some(t) => self@.terminator == Some(*t),
                None => self@.terminator is None,
            },
    {
        match &self.terminator {
            Some(t) => Some(t),
            None => None,
        }
    }
}

impl BasicBlock {
    /// A block with the given parts.
    pub(crate) fn from_parts(
        id: BlockId,
        instructions: Vec<Instruction>,
        terminator: Option<Terminator>,
    ) -> (block: Self)
        ensures
            block@ == (SpecBlock { id, instructions: instructions_view(instructions@), terminator }),
    {
        BasicBlock { id, instructions, terminator }
    }
}

impl Clone for BasicBlock {
    fn clone(&self) -> (copy: Self)
        ensures
            copy@ == self@,
    {
        let mut instructions: Vec<Instruction> = Vec::new();
        let mut i: usize = 0;
        while i < self.instructions.len()
            invariant
                0 <= i <= self.instructions.len(),
                instructions_view(instructions@) =~= instructions_view(self.instructions@).subrange(0, i as int),
            decreases self.instructions.len() - i,
        {
            let ghost before = instructions@;
            instructions.push(self.instructions[i].clone());
            proof {
                assert(instructions_view(instructions@) =~= instructions_view(before).push(
                    self.instructions@[i as int]@,
                ));
            }
            i = i + 1;
        }
        proof {
            assert(instructions_view(instructions@) =~= instructions_view(self.instructions@));
        }
        BasicBlock { id: self.id, instructions, terminator: self.terminator }
    }
}

/// The mathematical form of a control-flow graph.
pub struct SpecCfg {
    pub entry: BlockId,
    pub blocks: Seq<SpecBlock>,
}

/// A control-flow graph: an entry block id and the blocks, each found by its id.
#[derive(Debug, PartialEq, Eq)]
pub struct ControlFlowGraph {
    entry: BlockId,
    blocks: Vec<BasicBlock>,
}

pub open spec fn blocks_view(blocks: Seq<BasicBlock>) -> Seq<SpecBlock> {
    blocks.map_values(|b: BasicBlock| b@)
}

impl View for ControlFlowGraph {
    type V = SpecCfg;

    closed spec fn view(&self) -> SpecCfg {
        SpecCfg { entry: self.entry, blocks: blocks_view(self.blocks@) }
    }
}

/// The index of the first block with id `id` at or after `from`.
pub open spec fn find_block_from(blocks: Seq<SpecBlock>, id: BlockId, from: int) -> Option<int>
    decreases blocks.len() - from,
{
    if from < 0 || from >= blocks.len() {
        None
    } else if blocks[from].id == id {
        Some(from)
    } else {
        find_block_from(blocks, id, from + 1)
    }
}

/// The index of the block with id `id` (the first, should several share it).
pub open spec fn find_block(blocks: Seq<SpecBlock>, id: BlockId) -> Option<int> {
    find_block_from(blocks, id, 0)
}

pub(crate) proof fn lemma_find_block_from(blocks: Seq<SpecBlock>, id: BlockId, from: int)
    requires
        0 <= from,
    ensures
        match find_block_from(blocks, id, from) {
            Some(i) => from <= i < blocks.len() && blocks[i].id == id && forall|j: int|
                from <= j < i ==> blocks[j].id != id,
            None => forall|j: int| from <= j < blocks.len() ==> blocks[j].id != id,
        },
    decreases blocks.len() - from,
{
    if from < blocks.len() && blocks[from].id != id {
        lemma_find_block_from(blocks, id, from + 1);
    }
}

/// The blocks a terminator may transfer control to, in order.
pub open spec fn terminator_targets(terminator: Option<Terminator>) -> Seq<BlockId> {
    match terminator {
        Some(Terminator::Jump(target)) => seq![target],
        Some(Terminator::Branch { then_block, else_block, .. }) => seq![then_block, else_block],
        _ => Seq::empty(),
    }
}

/// The successors of the block with id `id` (none if there is no such block).
pub open spec fn successors_spec(g: SpecCfg, id: BlockId) -> Seq<BlockId> {
    match find_block(g.blocks, id) {
        Some(i) => terminator_targets(g.blocks[i].terminator),
        None => Seq::empty(),
    }
}

/// The ids of the blocks from position `from` on whose successors include `id`, in block order.
pub open spec fn predecessors_from(g: SpecCfg, id: BlockId, from: int) -> Seq<BlockId>
    decreases g.blocks.len() - from,
{
    if from < 0 || from >= g.blocks.len() {
        Seq::empty()
    } else {
        let rest = predecessors_from(g, id, from + 1);
        if successors_spec(g, g.blocks[from].id).contains(id) {
            seq![g.blocks[from].id] + rest
        } else {
            rest
        }
    }
}

/// The predecessors of `id`: the ids of the blocks, in block order, that may transfer control to it.
pub open spec fn predecessors_spec(g: SpecCfg, id: BlockId) -> Seq<BlockId> {
    predecessors_from(g, id, 0)
}

pub(crate) proof fn lemma_predecessors_from(g: SpecCfg, id: BlockId, from: int, p: BlockId)
    requires
        0 <= from,
    ensures
        predecessors_from(g, id, from).contains(p) <==> exists|j: int|
            from <= j < g.blocks.len() && g.blocks[j].id == p && successors_spec(g, p).contains(id),
    decreases g.blocks.len() - from,
{
    if from < g.blocks.len() {
        lemma_predecessors_from(g, id, from + 1, p);
        let rest = predecessors_from(g, id, from + 1);
        if successors_spec(g, g.blocks[from].id).contains(id) {
            assert((seq![g.blocks[from].id] + rest).contains(p) <==> (g.blocks[from].id == p
                || rest.contains(p))) by {
                if rest.contains(p) {
                    let k = choose|k: int| 0 <= k < rest.len() && rest[k] == p;
                    assert((seq![g.blocks[from].id] + rest)[k + 1] == p);
                }
                if (seq![g.blocks[from].id] + rest).contains(p) {
                    let k = choose|k: int|
                        0 <= k < (seq![g.blocks[from].id] + rest).len() && (seq![
                            g.blocks[from].id,
                        ] + rest)[k] == p;
                    if k > 0 {
                        assert(rest[k - 1] == p);
                    }
                }
                if g.blocks[from].id == p {
                    assert((seq![g.blocks[from].id] + rest)[0] == p);
                }
            }
        }
    }
}

impl ControlFlowGraph {
    /// A graph with the given entry and blocks.
    pub(crate) fn from_parts(entry: BlockId, blocks: Vec<BasicBlock>) -> (graph: Self)
        ensures
            graph@ == (SpecCfg { entry, blocks: blocks_view(blocks@) }),
    {
        ControlFlowGraph { entry, blocks }
    }
}

impl Clone for ControlFlowGraph {
    fn clone(&self) -> (copy: Self)
        ensures
            copy@ == self@,
    {
        let mut blocks: Vec<BasicBlock> = Vec::new();
        let mut i: usize = 0;
        while i < self.blocks.len()
            invariant
                0 <= i <= self.blocks.len(),
                blocks_view(blocks@) =~= blocks_view(self.blocks@).subrange(0, i as int),
            decreases self.blocks.len() - i,
        {
            let ghost before = blocks@;
            blocks.push(self.blocks[i].clone());
            proof {
                assert(blocks_view(blocks@) =~= blocks_view(before).push(self.blocks@[i as int]@));
            }
            i = i + 1;
        }
        proof {
            assert(blocks_view(blocks@) =~= blocks_view(self.blocks@));
        }
        ControlFlowGraph { entry: self.entry, blocks }
    }
}

impl ControlFlowGraph {
    pub fn entry(&self) -> (entry: BlockId)
        ensures
            entry == self@.entry,
    {
        self.entry
    }

    pub fn blocks(&self) -> (blocks: &[BasicBlock])
        ensures
            blocks_view(blocks@) == self@.blocks,
    {
        self.blocks.as_slice()
    }

    /// The block with the given id, if there is one.
    pub fn block(&self, id: BlockId) -> (block: Option<&BasicBlock>)
        ensures
            match block {
                Some(b) => find_block(self@.blocks, id) matches Some(i) && self@.blocks[i] == b@,
                None => find_block(self@.blocks, id) is None,
            },
    {
        match self.find_index(id) {
            Some(i) => Some(&self.blocks[i]),
            None => None,
        }
    }

    fn find_index(&self, id: BlockId) -> (index: Option<usize>)
        ensures
            match index {
                Some(i) => find_block(self@.blocks, id) == Some(i as int) && i < self.blocks@.len(),
                None => find_block(self@.blocks, id) is None,
            },
    {
        let ghost view = self@.blocks;
        let mut i: usize = 0;
        while i < self.blocks.len()
            invariant
                view == self@.blocks,
                view.len() == self.blocks@.len(),
                0 <= i <= view.len(),
                find_block(view, id) == find_block_from(view, id, i as int),
            decreases self.blocks.len() - i,
        {
            assert(view[i as int] == self.blocks@[i as int]@);
            if self.blocks[i].id == id {
                return Some(i);
            }
            i = i + 1;
        }
        None
    }

    /// The ids of the blocks that control may pass to from block `id`.
    pub fn successors(&self, id: BlockId) -> (successors: Vec<BlockId>)
        ensures
            successors@ == successors_spec(self@, id),
    {
        let block = match self.block(id) {
            Some(block) => block,
            None => {
                return Vec::new();
            },
        };
        match &block.terminator {
            Some(Terminator::Jump(target)) => {
                let mut v = Vec::new();
                v.push(*target);
                proof {
                    assert(v@ =~= seq![*target]);
                }
                v
            },
            Some(Terminator::Branch { then_block, else_block, .. }) => {
                let mut v = Vec::new();
                v.push(*then_block);
                v.push(*else_block);
                proof {
                    assert(v@ =~= seq![*then_block, *else_block]);
                }
                v
            },
            _ => Vec::new(),
        }
    }

    /// The ids of the blocks, in block order, that control may pass from to block `id`.
    pub fn predecessors(&self, id: BlockId) -> (predecessors: Vec<BlockId>)
        ensures
            predecessors@ == predecessors_spec(self@, id),
    {
        let ghost g = self@;
        let mut result: Vec<BlockId> = Vec::new();
        let mut i: usize = self.blocks.len();
        while i > 0
            invariant
                g == self@,
                g.blocks.len() == self.blocks@.len(),
                0 <= i <= g.blocks.len(),
                result@ == predecessors_from(g, id, i as int),
            decreases i,
        {
            i = i - 1;
            assert(g.blocks[i as int] == self.blocks@[i as int]@);
            let candidate = self.blocks[i].id;
            let successors = self.successors(candidate);
            if contains_id(&successors, id) {
                let mut extended = Vec::new();
                extended.push(candidate);
                let mut k: usize = 0;
                while k < result.len()
                    invariant
                        0 <= k <= result@.len(),
                        extended@ =~= seq![candidate] + result@.subrange(0, k as int),
                    decreases result.len() - k,
                {
                    extended.push(result[k]);
                    k = k + 1;
                }
                proof {
                    assert(result@.subrange(0, result@.len() as int) =~= result@);
                }
                result = extended;
            }
        }
        result
    }
}

/// Whether `id` occurs in `ids`.
pub fn contains_id(ids: &Vec<BlockId>, id: BlockId) -> (found: bool)
    ensures
        found == ids@.contains(id),
{
    let mut i: usize = 0;
    while i < ids.len()
        invariant
            0 <= i <= ids.len(),
            forall|j: int| 0 <= j < i ==> ids@[j] != id,
        decreases ids.len() - i,
    {
        if ids[i] == id {
            assert(ids@[i as int] == id);
            return true;
        }
        i = i + 1;
    }
    false
}

/// Whether `path` is a walk through the graph that starts at the entry.
pub open spec fn is_entry_path(g: SpecCfg, path: Seq<BlockId>) -> bool {
    &&& path.len() > 0
    &&& path[0] == g.entry
    &&& forall|k: int|
        0 <= k < path.len() - 1 ==> #[trigger] successors_spec(g, path[k]).contains(path[k + 1])
}

/// Whether control can reach block id `id` from the entry.
pub open spec fn reachable_spec(g: SpecCfg, id: BlockId) -> bool {
    exists|path: Seq<BlockId>| #[trigger] is_entry_path(g, path) && path.last() == id
}

/// The ids reachable from the entry.
pub open spec fn reachable_set(g: SpecCfg) -> Set<BlockId> {
    Set::new(|id: BlockId| reachable_spec(g, id))
}

/// Every block id a terminator of `blocks` names, in block order.
pub open spec fn all_targets(blocks: Seq<SpecBlock>) -> Seq<BlockId>
    decreases blocks.len(),
{
    if blocks.len() == 0 {
        Seq::empty()
    } else {
        all_targets(blocks.drop_last()) + terminator_targets(blocks.last().terminator)
    }
}

/// The ids that can occur in a walk: the entry and every terminator target.
pub open spec fn id_universe(g: SpecCfg) -> Set<BlockId> {
    (seq![g.entry] + all_targets(g.blocks)).to_set()
}

pub(crate) proof fn lemma_all_targets(blocks: Seq<SpecBlock>, i: int, x: BlockId)
    requires
        0 <= i < blocks.len(),
        terminator_targets(blocks[i].terminator).contains(x),
    ensures
        all_targets(blocks).contains(x),
    decreases blocks.len(),
{
    let init = blocks.drop_last();
    let t = terminator_targets(blocks.last().terminator);
    if i == blocks.len() - 1 {
        let k = choose|k: int| 0 <= k < t.len() && t[k] == x;
        assert((all_targets(init) + t)[all_targets(init).len() + k] == x);
    } else {
        assert(init[i] == blocks[i]);
        lemma_all_targets(init, i, x);
        let k = choose|k: int| 0 <= k < all_targets(init).len() && all_targets(init)[k] == x;
        assert((all_targets(init) + t)[k] == x);
    }
}

pub(crate) proof fn lemma_successor_in_universe(g: SpecCfg, id: BlockId, x: BlockId)
    requires
        successors_spec(g, id).contains(x),
    ensures
        id_universe(g).contains(x),
{
    lemma_find_block_from(g.blocks, id, 0);
    let i = find_block(g.blocks, id).unwrap();
    lemma_all_targets(g.blocks, i, x);
    let all = seq![g.entry] + all_targets(g.blocks);
    let k = choose|k: int| 0 <= k < all_targets(g.blocks).len() && all_targets(g.blocks)[k] == x;
    assert(all[k + 1] == x);
}

/// A walk to a reachable block extends to each of its successors.
pub proof fn lemma_reachable_step(g: SpecCfg, id: BlockId, next: BlockId)
    requires
        reachable_spec(g, id),
        successors_spec(g, id).contains(next),
    ensures
        reachable_spec(g, next),
{
    let path = choose|path: Seq<BlockId>| is_entry_path(g, path) && path.last() == id;
    let longer = path.push(next);
    assert forall|k: int| 0 <= k < longer.len() - 1 implies #[trigger] successors_spec(
        g,
        longer[k],
    ).contains(longer[k + 1]) by {
        if k < path.len() - 1 {
            assert(longer[k] == path[k] && longer[k + 1] == path[k + 1]);
        }
    }
    assert(is_entry_path(g, longer));
    assert(longer.last() == next);
}

/// The entry of a graph is reachable.
pub proof fn lemma_entry_reachable(g: SpecCfg)
    ensures
        reachable_spec(g, g.entry),
{
    assert(is_entry_path(g, seq![g.entry]));
    assert(seq![g.entry].last() == g.entry);
}

proof fn lemma_closed_holds_path(g: SpecCfg, s: Set<BlockId>, path: Seq<BlockId>, k: int)
    requires
        s.contains(g.entry),
        forall|x: BlockId, y: BlockId|
            s.contains(x) && #[trigger] successors_spec(g, x).contains(y) ==> #[trigger] s.contains(y),
        is_entry_path(g, path),
        0 <= k < path.len(),
    ensures
        s.contains(path[k]),
    decreases k,
{
    if k > 0 {
        let j = k - 1;
        lemma_closed_holds_path(g, s, path, j);
        assert(successors_spec(g, path[j]).contains(path[j + 1]));
    }
}

/// A set that holds the entry and is closed under successors holds every reachable id.
proof fn lemma_closed_holds_reachable(g: SpecCfg, s: Set<BlockId>, id: BlockId)
    requires
        s.contains(g.entry),
        forall|x: BlockId, y: BlockId|
            s.contains(x) && #[trigger] successors_spec(g, x).contains(y) ==> #[trigger] s.contains(y),
        reachable_spec(g, id),
    ensures
        s.contains(id),
{
    let path = choose|path: Seq<BlockId>| is_entry_path(g, path) && path.last() == id;
    lemma_closed_holds_path(g, s, path, path.len() - 1);
}

/// The blocks whose ids are in `keep`, in the order they come.
pub open spec fn keep_blocks(blocks: Seq<SpecBlock>, keep: Set<BlockId>) -> Seq<SpecBlock>
    decreases blocks.len(),
{
    if blocks.len() == 0 {
        Seq::empty()
    } else {
        let rest = keep_blocks(blocks.drop_last(), keep);
        if keep.contains(blocks.last().id) {
            rest.push(blocks.last())
        } else {
            rest
        }
    }
}

/// The graph without the blocks control cannot reach.
pub open spec fn prune_spec(g: SpecCfg) -> SpecCfg {
    SpecCfg { entry: g.entry, blocks: keep_blocks(g.blocks, reachable_set(g)) }
}

impl ControlFlowGraph {
    /// The ids reachable from the entry (the entry itself included).
    pub fn reachable_blocks(&self) -> (reachable: BTreeSet<BlockId>)
        ensures
            reachable@ == reachable_set(self@),
    {
        let (reachable, _) = self.reachable_order();
        reachable
    }

    /// The reachable ids, as a set and as a list without repetitions in the order they are found.
    pub(crate) fn reachable_order(&self) -> (result: (BTreeSet<BlockId>, Vec<BlockId>))
        ensures
            result.0@ == reachable_set(self@),
            result.1@.no_duplicates(),
            forall|x: BlockId| result.1@.contains(x) <==> result.0@.contains(x),
    {
        let ghost g = self@;
        let mut order: Vec<BlockId> = Vec::new();
        let ghost universe = id_universe(g);
        let mut reachable: BTreeSet<BlockId> = BTreeSet::new();
        let mut queue: Vec<BlockId> = Vec::new();
        queue.push(self.entry);
        let mut head: usize = 0;
        proof {
            lemma_entry_reachable(g);
            assert((seq![g.entry] + all_targets(g.blocks))[0] == g.entry);
            assert(queue@.subrange(0, 1)[0] == g.entry);
        }
        while head < queue.len()
            invariant
                g == self@,
                universe == id_universe(g),
                universe.finite(),
                0 <= head <= queue@.len(),
                reachable@.subset_of(universe),
                forall|k: int| 0 <= k < queue@.len() ==> universe.contains(#[trigger] queue@[k]),
                forall|x: BlockId| #[trigger] reachable@.contains(x) ==> reachable_spec(g, x),
                order@.no_duplicates(),
                forall|x: BlockId| order@.contains(x) <==> reachable@.contains(x),
                forall|k: int| 0 <= k < queue@.len() ==> reachable_spec(g, #[trigger] queue@[k]),
                reachable@.contains(g.entry) || queue@.subrange(head as int, queue@.len() as int).contains(g.entry),
                forall|x: BlockId, y: BlockId|
                    reachable@.contains(x) && #[trigger] successors_spec(g, x).contains(y) ==> (
                    reachable@.contains(y) || queue@.subrange(head as int, queue@.len() as int).contains(y)),
            decreases universe.difference(reachable@).len(), queue@.len() - head,
        {
            let block = queue[head];
            let ghost old_pending = queue@.subrange(head as int, queue@.len() as int);
            let ghost old_reachable = reachable@;
            head = head + 1;
            proof {
                assert(old_pending[0] == block);
                assert forall|y: BlockId| old_pending.contains(y) && y != block implies queue@.subrange(
                    head as int,
                    queue@.len() as int,
                ).contains(y) by {
                    let k = choose|k: int| 0 <= k < old_pending.len() && old_pending[k] == y;
                    assert(k > 0);
                    assert(queue@.subrange(head as int, queue@.len() as int)[k - 1] == y);
                }
            }
            if reachable.contains(&block) {
                continue;
            }
            reachable.insert(block);
            let ghost old_order = order@;
            order.push(block);
            proof {
                assert forall|x: BlockId| order@.contains(x) <==> reachable@.contains(x) by {
                    if order@.contains(x) {
                        let k = choose|k: int| 0 <= k < order@.len() && order@[k] == x;
                        if k < old_order.len() {
                            assert(old_order[k] == x);
                        }
                    }
                    if reachable@.contains(x) && x != block {
                        assert(old_order.contains(x));
                        let k = choose|k: int| 0 <= k < old_order.len() && old_order[k] == x;
                        assert(order@[k] == x);
                    }
                    if x == block {
                        assert(order@[old_order.len() as int] == x);
                    }
                }
                assert forall|i: int, j: int| 0 <= i < j < order@.len() implies order@[i] != order@[j] by {
                    if j == old_order.len() {
                        assert(old_order.contains(old_order[i]));
                    } else {
                        assert(old_order[i] != old_order[j]);
                    }
                }
                let d_old = universe.difference(old_reachable);
                vstd::set_lib::lemma_len_subset(d_old, universe);
                assert(universe.difference(reachable@) =~= d_old.remove(block));
                assert(d_old.contains(block));
            }
            let successors = self.successors(block);
            let ghost before_push = queue@;
            let mut k: usize = 0;
            while k < successors.len()
                invariant
                    g == self@,
                    successors@ == successors_spec(g, block),
                    reachable_spec(g, block),
                    universe == id_universe(g),
                    0 <= k <= successors@.len(),
                    head <= before_push.len(),
                    queue@ =~= before_push + successors@.subrange(0, k as int),
                    forall|j: int| 0 <= j < before_push.len() ==> universe.contains(#[trigger] before_push[j]),
                    forall|j: int| 0 <= j < before_push.len() ==> reachable_spec(g, #[trigger] before_push[j]),
                decreases successors.len() - k,
            {
                proof {
                    assert(successors@.contains(successors@[k as int]));
                    lemma_successor_in_universe(g, block, successors@[k as int]);
                    lemma_reachable_step(g, block, successors@[k as int]);
                }
                queue.push(successors[k]);
                k = k + 1;
            }
            proof {
                assert(successors@.subrange(0, successors@.len() as int) =~= successors@);
                let pending = queue@.subrange(head as int, queue@.len() as int);
                assert forall|j: int| 0 <= j < queue@.len() implies universe.contains(#[trigger] queue@[j])
                    && reachable_spec(g, queue@[j]) by {
                    if j >= before_push.len() {
                        let m = j - before_push.len();
                        assert(successors@.contains(successors@[m]));
                        lemma_successor_in_universe(g, block, successors@[m]);
                        lemma_reachable_step(g, block, successors@[m]);
                    }
                }
                assert forall|y: BlockId| #[trigger] before_push.subrange(head as int, before_push.len() as int).contains(y)
                    implies pending.contains(y) by {
                    let m = choose|m: int| 0 <= m < before_push.len() - head && before_push.subrange(head as int, before_push.len() as int)[m] == y;
                    assert(pending[m] == y);
                }
                assert forall|y: BlockId| #[trigger] successors@.contains(y) implies pending.contains(y) by {
                    let m = choose|m: int| 0 <= m < successors@.len() && successors@[m] == y;
                    assert(pending[before_push.len() - head + m] == y);
                }
            }
        }
        proof {
            assert forall|id: BlockId| reachable_spec(g, id) implies reachable@.contains(id) by {
                assert(queue@.subrange(head as int, queue@.len() as int) =~= Seq::<BlockId>::empty());
                lemma_closed_holds_reachable(g, reachable@, id);
            }
            assert(reachable@ =~= reachable_set(g));
        }
        (reachable, order)
    }

    /// Removes the blocks control cannot reach from the entry.
    pub fn prune_unreachable(&mut self)
        ensures
            final(self)@ == prune_spec(old(self)@),
    {
        let reachable = self.reachable_blocks();
        let ghost all = self.blocks@;
        let mut remaining: Vec<BasicBlock> = Vec::new();
        std::mem::swap(&mut remaining, &mut self.blocks);
        let mut kept_reversed: Vec<BasicBlock> = Vec::new();
        while remaining.len() > 0
            invariant
                self.entry == old(self).entry,
                reachable@ == reachable_set(old(self)@),
                all == old(self).blocks@,
                keep_blocks(blocks_view(all), reachable@) == keep_blocks(
                    blocks_view(remaining@),
                    reachable@,
                ) + blocks_view(kept_reversed@).reverse(),
            decreases remaining.len(),
        {
            let ghost before = remaining@;
            let ghost kept_before = kept_reversed@;
            let block = remaining.pop().unwrap();
            proof {
                assert(blocks_view(before).drop_last() =~= blocks_view(remaining@));
                assert(blocks_view(before).last() == block@);
            }
            if reachable.contains(&block.id) {
                kept_reversed.push(block);
                proof {
                    assert(blocks_view(kept_reversed@).reverse() =~= seq![block@] + blocks_view(
                        kept_before,
                    ).reverse());
                    assert(keep_blocks(blocks_view(remaining@), reachable@).push(block@)
                        + blocks_view(kept_before).reverse() =~= keep_blocks(
                        blocks_view(remaining@),
                        reachable@,
                    ) + blocks_view(kept_reversed@).reverse());
                }
            }
        }
        proof {
            assert(blocks_view(remaining@) =~= Seq::<SpecBlock>::empty());
            assert(Seq::<SpecBlock>::empty() + blocks_view(kept_reversed@).reverse() =~= blocks_view(
                kept_reversed@,
            ).reverse());
        }
        while kept_reversed.len() > 0
            invariant
                self.entry == old(self).entry,
                reachable@ == reachable_set(old(self)@),
                all == old(self).blocks@,
                keep_blocks(blocks_view(all), reachable@) == blocks_view(self.blocks@) + blocks_view(
                    kept_reversed@,
                ).reverse(),
            decreases kept_reversed.len(),
        {
            let ghost before = kept_reversed@;
            let ghost placed = self.blocks@;
            let block = kept_reversed.pop().unwrap();
            self.blocks.push(block);
            proof {
                assert(blocks_view(before).reverse() =~= seq![block@] + blocks_view(kept_reversed@).reverse());
                assert(blocks_view(self.blocks@) =~= blocks_view(placed).push(block@));
                assert(blocks_view(placed) + (seq![block@] + blocks_view(kept_reversed@).reverse())
                    =~= blocks_view(self.blocks@) + blocks_view(kept_reversed@).reverse());
            }
        }
        proof {
            assert(blocks_view(self.blocks@) + Seq::<SpecBlock>::empty() =~= blocks_view(self.blocks@));
        }
    }
}

/// The state of CFG construction: the blocks so far, the block being filled, the next fresh
/// value id, and the operand each symbol currently stands for (in order of first definition).
pub struct BuildState {
    pub blocks: Seq<SpecBlock>,
    pub current: int,
    pub next_value: int,
    pub definitions: Seq<(SymbolId, Operand)>,
}

/// The position of the definition of `symbol` (the first, should several exist).
pub open spec fn definition_index(definitions: Seq<(SymbolId, Operand)>, symbol: SymbolId) -> Option<int>
    decreases definitions.len(),
{
    if definitions.len() == 0 {
        None
    } else if definitions.last().0 == symbol && definition_index(definitions.drop_last(), symbol) is None {
        Some(definitions.len() - 1)
    } else {
        definition_index(definitions.drop_last(), symbol)
    }
}

/// The operand `symbol` stands for, if it is defined.
pub open spec fn lookup_definition(definitions: Seq<(SymbolId, Operand)>, symbol: SymbolId) -> Option<Operand> {
    match definition_index(definitions, symbol) {
        Some(i) => Some(definitions[i].1),
        None => None,
    }
}

/// The definitions with `symbol` standing for `operand` (added at the end if it was not defined).
pub open spec fn define_spec(definitions: Seq<(SymbolId, Operand)>, symbol: SymbolId, operand: Operand) -> Seq<(SymbolId, Operand)> {
    match definition_index(definitions, symbol) {
        Some(i) => definitions.update(i, (symbol, operand)),
        None => definitions.push((symbol, operand)),
    }
}

pub open spec fn with_instruction(s: BuildState, instruction: SpecInstruction) -> BuildState {
    let b = s.blocks[s.current];
    BuildState {
        blocks: s.blocks.update(
            s.current,
            SpecBlock { id: b.id, instructions: b.instructions.push(instruction), terminator: b.terminator },
        ),
        current: s.current,
        next_value: s.next_value,
        definitions: s.definitions,
    }
}

pub open spec fn with_terminator(s: BuildState, block: int, terminator: Terminator) -> BuildState {
    let b = s.blocks[block];
    BuildState {
        blocks: s.blocks.update(
            block,
            SpecBlock { id: b.id, instructions: b.instructions, terminator: Some(terminator) },
        ),
        current: s.current,
        next_value: s.next_value,
        definitions: s.definitions,
    }
}

pub open spec fn with_new_block(s: BuildState) -> BuildState {
    BuildState {
        blocks: s.blocks.push(
            SpecBlock { id: s.blocks.len() as BlockId, instructions: Seq::empty(), terminator: None },
        ),
        current: s.current,
        next_value: s.next_value,
        definitions: s.definitions,
    }
}

pub open spec fn with_current(s: BuildState, current: int) -> BuildState {
    BuildState { blocks: s.blocks, current, next_value: s.next_value, definitions: s.definitions }
}

pub open spec fn with_definitions(s: BuildState, definitions: Seq<(SymbolId, Operand)>) -> BuildState {
    BuildState { blocks: s.blocks, current: s.current, next_value: s.next_value, definitions }
}

pub open spec fn with_next_value(s: BuildState, next_value: int) -> BuildState {
    BuildState { blocks: s.blocks, current: s.current, next_value, definitions: s.definitions }
}

/// Lowering of a typed expression into the current block: the state after it and its operand.
/// Each binary operation gets the next fresh value id, after its operands.
pub open spec fn build_expr_spec(s: BuildState, expr: TypedExpr) -> (BuildState, Operand)
    decreases expr,
{
    match expr {
        TypedExpr::Integer { value, .. } => (s, Operand::Constant(value)),
        TypedExpr::Boolean { value, .. } => (s, Operand::Constant(if value { 1i64 } else { 0i64 })),
        TypedExpr::Symbol { symbol_id, .. } => (
            s,
            match lookup_definition(s.definitions, symbol_id) {
                Some(op) => op,
                None => Operand::Constant(0),
            },
        ),
        TypedExpr::Binary { left, op, right, .. } => {
            let (s1, l) = build_expr_spec(s, *left);
            let (s2, r) = build_expr_spec(s1, *right);
            let result = s2.next_value;
            (
                with_instruction(
                    with_next_value(s2, result + 1),
                    SpecInstruction::Binary { result: result as ValueId, op, left: l, right: r },
                ),
                Operand::Value(result as ValueId),
            )
        },
    }
}

/// Lowering of a block of statements, stopping once the current block has a terminator.
pub open spec fn build_statements_spec(s: BuildState, statements: Seq<SpecTypedStatement>) -> BuildState
    decreases statements, 2nat,
{
    if statements.len() == 0 || !(0 <= s.current < s.blocks.len()) || s.blocks[s.current].terminator is Some {
        s
    } else {
        let after = build_statement_spec(s, statements[0]);
        build_statements_spec(after, statements.subrange(1, statements.len() as int))
    }
}

/// Lowering of one statement.
pub open spec fn build_statement_spec(s: BuildState, statement: SpecTypedStatement) -> BuildState
    decreases statement, 1nat,
{
    match statement {
        SpecTypedStatement::Let { symbol, value } => {
            let (s1, op) = build_expr_spec(s, value);
            let s2 = with_instruction(s1, SpecInstruction::Bind { symbol_id: symbol.spec_id(), value: op });
            with_definitions(s2, define_spec(s2.definitions, symbol.spec_id(), op))
        },
        SpecTypedStatement::Assign { symbol, value } => {
            let (s1, op) = build_expr_spec(s, value);
            let s2 = with_instruction(s1, SpecInstruction::Bind { symbol_id: symbol.spec_id(), value: op });
            with_definitions(s2, define_spec(s2.definitions, symbol.spec_id(), op))
        },
        SpecTypedStatement::Return { value } => {
            let (s1, op) = build_expr_spec(s, value);
            with_terminator(s1, s1.current, Terminator::Return(op))
        },
        SpecTypedStatement::If { condition, then_branch, else_branch } => {
            let (h, s4, s5, s6, s7) = if_states(s, statement);
            let then_block = h.blocks.len() - 3;
            merge_spec(
                with_definitions(with_current(s7, then_block + 2), Seq::empty()),
                h.definitions,
                0,
                s5.definitions,
                s7.definitions,
                s4.current,
                s6.current,
                branch_live(s4),
                branch_live(s6),
            )
        },
    }
}

/// The state after lowering an `if` condition, adding the then, else and merge blocks (in this
/// order, after the existing ones), and ending the current block with the branch.
pub open spec fn if_head(s: BuildState, condition: TypedExpr) -> BuildState {
    let (s1, c) = build_expr_spec(s, condition);
    let then_block = s1.blocks.len() as int;
    let s2 = with_new_block(with_new_block(with_new_block(s1)));
    with_terminator(
        s2,
        s2.current,
        Terminator::Branch {
            condition: c,
            then_block: then_block as BlockId,
            else_block: (then_block + 1) as BlockId,
        },
    )
}

/// Whether the block being filled can still take statements (it has no terminator yet).
pub open spec fn branch_live(s: BuildState) -> bool {
    0 <= s.current < s.blocks.len() && s.blocks[s.current].terminator is None
}

/// Ends a live branch with a jump to the merge block.
pub open spec fn close_branch(s: BuildState, merge_block: int) -> BuildState {
    if branch_live(s) {
        with_terminator(s, s.current, Terminator::Jump(merge_block as BlockId))
    } else {
        s
    }
}

/// The states an `if` passes through: after its head, after the then branch (before and after
/// closing it), and after the else branch (before and after closing it). The else branch
/// starts from the definitions in force before the `if`.
pub open spec fn if_states(s: BuildState, statement: SpecTypedStatement) -> (
    BuildState,
    BuildState,
    BuildState,
    BuildState,
    BuildState,
)
    decreases statement, 0nat,
{
    match statement {
        SpecTypedStatement::If { condition, then_branch, else_branch } => {
            let h = if_head(s, condition);
            let then_block = h.blocks.len() - 3;
            let s4 = build_statements_spec(with_current(h, then_block), then_branch);
            let s5 = close_branch(s4, then_block + 2);
            let s6 = build_statements_spec(
                with_definitions(with_current(s5, then_block + 1), h.definitions),
                else_branch,
            );
            let s7 = close_branch(s6, then_block + 2);
            (h, s4, s5, s6, s7)
        },
        _ => (s, s, s, s, s),
    }
}

/// The operand a symbol stands for in a branch's definitions.
pub open spec fn branch_operand(definitions: Seq<(SymbolId, Operand)>, symbol: SymbolId) -> Operand {
    match lookup_definition(definitions, symbol) {
        Some(op) => op,
        None => Operand::Constant(0),
    }
}

/// One step of merging: the state after giving `symbol` its operand at the merge block. When both
/// branches are live and define `symbol` differently, a phi of the two is added; otherwise the
/// symbol takes the operand of the live branch (or `fallback` when neither is live).
pub open spec fn merge_step(
    s: BuildState,
    symbol: SymbolId,
    fallback: Operand,
    then_definitions: Seq<(SymbolId, Operand)>,
    else_definitions: Seq<(SymbolId, Operand)>,
    then_end: int,
    else_end: int,
    then_live: bool,
    else_live: bool,
) -> BuildState {
    let t = branch_operand(then_definitions, symbol);
    let e = branch_operand(else_definitions, symbol);
    if then_live && else_live {
        if t == e {
            with_definitions(s, s.definitions.push((symbol, t)))
        } else {
            let result = s.next_value;
            let s1 = with_instruction(
                with_next_value(s, result + 1),
                SpecInstruction::Phi {
                    result: result as ValueId,
                    symbol_id: symbol,
                    incomings: seq![(then_end as BlockId, t), (else_end as BlockId, e)],
                },
            );
            with_definitions(s1, s1.definitions.push((symbol, Operand::Value(result as ValueId))))
        }
    } else if then_live {
        with_definitions(s, s.definitions.push((symbol, t)))
    } else if else_live {
        with_definitions(s, s.definitions.push((symbol, e)))
    } else {
        with_definitions(s, s.definitions.push((symbol, fallback)))
    }
}

/// Merges the definitions of the two branches at the merge block, for the symbols defined
/// before the branch (from position `k` on), in the order they were first defined.
pub open spec fn merge_spec(
    s: BuildState,
    outer: Seq<(SymbolId, Operand)>,
    k: int,
    then_definitions: Seq<(SymbolId, Operand)>,
    else_definitions: Seq<(SymbolId, Operand)>,
    then_end: int,
    else_end: int,
    then_live: bool,
    else_live: bool,
) -> BuildState
    decreases outer.len() - k,
{
    if k < 0 || k >= outer.len() {
        s
    } else {
        let next = merge_step(
            s,
            outer[k].0,
            outer[k].1,
            then_definitions,
            else_definitions,
            then_end,
            else_end,
            then_live,
            else_live,
        );
        merge_spec(next, outer, k + 1, then_definitions, else_definitions, then_end, else_end, then_live, else_live)
    }
}

/// The initial state: one empty entry block.
pub open spec fn initial_build_state() -> BuildState {
    BuildState {
        blocks: seq![SpecBlock { id: 0, instructions: Seq::empty(), terminator: None }],
        current: 0,
        next_value: 0,
        definitions: Seq::empty(),
    }
}

/// Whether the counters of a state still fit in 32 bits.
pub open spec fn fits(s: BuildState) -> bool {
    s.next_value <= u32::MAX && s.blocks.len() <= u32::MAX + 1
}

/// Whether a state is well formed: the current block exists and block ids are positions.
pub open spec fn build_state_wf(s: BuildState) -> bool {
    &&& 0 <= s.current < s.blocks.len()
    &&& forall|i: int| 0 <= i < s.blocks.len() ==> #[trigger] s.blocks[i].id == i as BlockId
    &&& 0 <= s.next_value
}

/// Whether every symbol an expression reads is in `defined`.
pub open spec fn expr_scoped(defined: Set<SymbolId>, expr: TypedExpr) -> bool
    decreases expr,
{
    match expr {
        TypedExpr::Symbol { symbol_id, .. } => defined.contains(symbol_id),
        TypedExpr::Binary { left, right, .. } => expr_scoped(defined, *left) && expr_scoped(defined, *right),
        _ => true,
    }
}

/// Whether every symbol a block reads is bound before it (bindings inside a branch stay there).
pub open spec fn block_scoped(defined: Set<SymbolId>, statements: Seq<SpecTypedStatement>) -> bool
    decreases statements, 1nat,
{
    if statements.len() == 0 {
        true
    } else {
        statement_scoped(defined, statements[0]) && block_scoped(
            match statements[0] {
                SpecTypedStatement::Let { symbol, .. } => defined.insert(symbol.spec_id()),
                SpecTypedStatement::Assign { symbol, .. } => defined.insert(symbol.spec_id()),
                _ => defined,
            },
            statements.subrange(1, statements.len() as int),
        )
    }
}

pub open spec fn statement_scoped(defined: Set<SymbolId>, statement: SpecTypedStatement) -> bool
    decreases statement, 0nat,
{
    match statement {
        SpecTypedStatement::Let { value, .. } => expr_scoped(defined, value),
        SpecTypedStatement::Assign { value, .. } => expr_scoped(defined, value),
        SpecTypedStatement::Return { value } => expr_scoped(defined, value),
        SpecTypedStatement::If { condition, then_branch, else_branch } => expr_scoped(defined, condition)
            && block_scoped(defined, then_branch) && block_scoped(defined, else_branch),
    }
}

/// The counters only grow during construction, and well-formed states stay well formed.
pub open spec fn grows(a: BuildState, b: BuildState) -> bool {
    build_state_wf(a) ==> {
        &&& build_state_wf(b)
        &&& a.next_value <= b.next_value
        &&& a.blocks.len() <= b.blocks.len()
    }
}

pub(crate) proof fn lemma_build_expr_grows(s: BuildState, expr: TypedExpr)
    ensures
        grows(s, build_expr_spec(s, expr).0),
        build_expr_spec(s, expr).0.current == s.current,
        build_expr_spec(s, expr).0.definitions == s.definitions,
    decreases expr,
{
    if let TypedExpr::Binary { left, right, .. } = expr {
        lemma_build_expr_grows(s, *left);
        let (s1, _) = build_expr_spec(s, *left);
        lemma_build_expr_grows(s1, *right);
        let (s2, _) = build_expr_spec(s1, *right);
        let s3 = with_next_value(s2, s2.next_value + 1);
        assert forall|i: int| 0 <= i < s3.blocks.len() && build_state_wf(s2) implies #[trigger] build_expr_spec(s, expr).0.blocks[i].id == i as BlockId by {
            assert(s3.blocks[i].id == i as BlockId);
        }
    }
}

pub(crate) proof fn lemma_merge_step_grows(
    s: BuildState,
    symbol: SymbolId,
    fallback: Operand,
    t: Seq<(SymbolId, Operand)>,
    e: Seq<(SymbolId, Operand)>,
    te: int,
    ee: int,
    tl: bool,
    el: bool,
)
    ensures
        grows(s, merge_step(s, symbol, fallback, t, e, te, ee, tl, el)),
        merge_step(s, symbol, fallback, t, e, te, ee, tl, el).current == s.current,
{
    let next = merge_step(s, symbol, fallback, t, e, te, ee, tl, el);
    if build_state_wf(s) {
        assert forall|i: int| 0 <= i < next.blocks.len() implies #[trigger] next.blocks[i].id == i as BlockId by {
            assert(s.blocks[i].id == i as BlockId);
        }
    }
}

pub(crate) proof fn lemma_merge_grows(
    s: BuildState,
    outer: Seq<(SymbolId, Operand)>,
    k: int,
    t: Seq<(SymbolId, Operand)>,
    e: Seq<(SymbolId, Operand)>,
    te: int,
    ee: int,
    tl: bool,
    el: bool,
)
    ensures
        grows(s, merge_spec(s, outer, k, t, e, te, ee, tl, el)),
        merge_spec(s, outer, k, t, e, te, ee, tl, el).current == s.current,
    decreases outer.len() - k,
{
    if 0 <= k < outer.len() {
        let next = merge_step(s, outer[k].0, outer[k].1, t, e, te, ee, tl, el);
        lemma_merge_step_grows(s, outer[k].0, outer[k].1, t, e, te, ee, tl, el);
        lemma_merge_grows(next, outer, k + 1, t, e, te, ee, tl, el);
    }
}

pub(crate) proof fn lemma_build_statements_grows(s: BuildState, statements: Seq<SpecTypedStatement>)
    ensures
        grows(s, build_statements_spec(s, statements)),
    decreases statements, 2nat,
{
    if !(statements.len() == 0 || !(0 <= s.current < s.blocks.len()) || s.blocks[s.current].terminator is Some) {
        lemma_build_statement_grows(s, statements[0]);
        let after = build_statement_spec(s, statements[0]);
        lemma_build_statements_grows(after, statements.subrange(1, statements.len() as int));
    }
}

pub(crate) proof fn lemma_build_statement_grows(s: BuildState, statement: SpecTypedStatement)
    ensures
        grows(s, build_statement_spec(s, statement)),
    decreases statement, 1nat,
{
    match statement {
        SpecTypedStatement::Let { symbol, value } => {
            lemma_build_expr_grows(s, value);
            let (s1, op) = build_expr_spec(s, value);
            let s2 = with_instruction(s1, SpecInstruction::Bind { symbol_id: symbol.spec_id(), value: op });
            if build_state_wf(s1) {
                assert forall|i: int| 0 <= i < s2.blocks.len() implies #[trigger] s2.blocks[i].id == i as BlockId by {
                    assert(s1.blocks[i].id == i as BlockId);
                }
            }
        },
        SpecTypedStatement::Assign { symbol, value } => {
            lemma_build_expr_grows(s, value);
            let (s1, op) = build_expr_spec(s, value);
            let s2 = with_instruction(s1, SpecInstruction::Bind { symbol_id: symbol.spec_id(), value: op });
            if build_state_wf(s1) {
                assert forall|i: int| 0 <= i < s2.blocks.len() implies #[trigger] s2.blocks[i].id == i as BlockId by {
                    assert(s1.blocks[i].id == i as BlockId);
                }
            }
        },
        SpecTypedStatement::Return { value } => {
            lemma_build_expr_grows(s, value);
            let (s1, op) = build_expr_spec(s, value);
            let s2 = with_terminator(s1, s1.current, Terminator::Return(op));
            if build_state_wf(s1) {
                assert forall|i: int| 0 <= i < s2.blocks.len() implies #[trigger] s2.blocks[i].id == i as BlockId by {
                    assert(s1.blocks[i].id == i as BlockId);
                }
            }
        },
        SpecTypedStatement::If { .. } => {
            lemma_if_chain(s, statement);
        },
    }
}

/// Each state an `if` passes through grows into the next, so each fits when the last does.
pub proof fn lemma_if_chain(s: BuildState, statement: SpecTypedStatement)
    requires
        statement is If,
    ensures
        build_state_wf(s) ==> ({
            let (h, s4, s5, s6, s7) = if_states(s, statement);
            let then_block = h.blocks.len() - 3;
            let start_then = with_current(h, then_block);
            let start_else = with_definitions(with_current(s5, then_block + 1), h.definitions);
            let start_merge = with_definitions(with_current(s7, then_block + 2), Seq::empty());
            let s1 = build_expr_spec(s, statement->condition).0;
            &&& grows(s, s1)
            &&& h.blocks.len() == s1.blocks.len() + 3
            &&& h.next_value == s1.next_value
            &&& h.definitions == s.definitions
            &&& build_state_wf(h)
            &&& build_state_wf(start_then)
            &&& grows(start_then, s4)
            &&& grows(s4, s5)
            &&& build_state_wf(start_else)
            &&& grows(start_else, s6)
            &&& grows(s6, s7)
            &&& build_state_wf(start_merge)
            &&& grows(start_merge, build_statement_spec(s, statement))
        }),
    decreases statement, 0nat,
{
    if build_state_wf(s) {
        match statement {
            SpecTypedStatement::If { condition, then_branch, else_branch } => {
                let (h, s4, s5, s6, s7) = if_states(s, statement);
                lemma_build_expr_grows(s, condition);
                let (s1, c) = build_expr_spec(s, condition);
                let then_block = s1.blocks.len() as int;
                lemma_new_block_grows(s1);
                lemma_new_block_grows(with_new_block(s1));
                lemma_new_block_grows(with_new_block(with_new_block(s1)));
                let s2 = with_new_block(with_new_block(with_new_block(s1)));
                lemma_with_terminator_grows(
                    s2,
                    s2.current,
                    Terminator::Branch {
                        condition: c,
                        then_block: then_block as BlockId,
                        else_block: (then_block + 1) as BlockId,
                    },
                );
                assert(h.blocks.len() == then_block + 3);
                let start_then = with_current(h, then_block);
                assert(build_state_wf(start_then));
                lemma_build_statements_grows(start_then, then_branch);
                if branch_live(s4) {
                    lemma_with_terminator_grows(s4, s4.current, Terminator::Jump((then_block + 2) as BlockId));
                }
                let start_else = with_definitions(with_current(s5, then_block + 1), h.definitions);
                assert(build_state_wf(start_else));
                lemma_build_statements_grows(start_else, else_branch);
                if branch_live(s6) {
                    lemma_with_terminator_grows(s6, s6.current, Terminator::Jump((then_block + 2) as BlockId));
                }
                let start_merge = with_definitions(with_current(s7, then_block + 2), Seq::empty());
                assert(build_state_wf(start_merge));
                lemma_merge_grows(
                    start_merge,
                    h.definitions,
                    0,
                    s5.definitions,
                    s7.definitions,
                    s4.current,
                    s6.current,
                    branch_live(s4),
                    branch_live(s6),
                );
            },
            _ => {},
        }
    }
}

pub(crate) proof fn lemma_with_terminator_grows(s: BuildState, block: int, t: Terminator)
    requires
        0 <= block < s.blocks.len(),
    ensures
        grows(s, with_terminator(s, block, t)),
{
    let s2 = with_terminator(s, block, t);
    if build_state_wf(s) {
        assert forall|i: int| 0 <= i < s2.blocks.len() implies #[trigger] s2.blocks[i].id == i as BlockId by {
            assert(s.blocks[i].id == i as BlockId);
        }
    }
}

pub(crate) proof fn lemma_new_block_grows(s: BuildState)
    ensures
        grows(s, with_new_block(s)),
        with_new_block(s).blocks.len() == s.blocks.len() + 1,
{
    let s2 = with_new_block(s);
    if build_state_wf(s) {
        assert forall|i: int| 0 <= i < s2.blocks.len() implies #[trigger] s2.blocks[i].id == i as BlockId by {
            if i < s.blocks.len() {
                assert(s.blocks[i].id == i as BlockId);
            }
        }
    }
}



/// The first position of a definition of `symbol` is the first position whose symbol matches.
pub proof fn lemma_definition_index(definitions: Seq<(SymbolId, Operand)>, symbol: SymbolId)
    ensures
        match definition_index(definitions, symbol) {
            Some(i) => 0 <= i < definitions.len() && definitions[i].0 == symbol && forall|j: int|
                0 <= j < i ==> definitions[j].0 != symbol,
            None => forall|j: int| 0 <= j < definitions.len() ==> definitions[j].0 != symbol,
        },
    decreases definitions.len(),
{
    if definitions.len() > 0 {
        let init = definitions.drop_last();
        lemma_definition_index(init, symbol);
        assert forall|j: int| 0 <= j < init.len() implies init[j] == definitions[j] by {}
    }
}

/// Lowering of the statements from position `i` on, one statement at a time.
proof fn lemma_statements_step(s: BuildState, view: Seq<SpecTypedStatement>, i: int)
    requires
        0 <= i < view.len(),
        0 <= s.current < s.blocks.len(),
        s.blocks[s.current].terminator is None,
    ensures
        build_statements_spec(s, view.subrange(i, view.len() as int)) == build_statements_spec(
            build_statement_spec(s, view[i]),
            view.subrange(i + 1, view.len() as int),
        ),
{
    let rest = view.subrange(i, view.len() as int);
    assert(rest[0] == view[i]);
    assert(rest.subrange(1, rest.len() as int) =~= view.subrange(i + 1, view.len() as int));
}

fn copy_definitions(definitions: &Vec<(SymbolId, Operand)>) -> (copy: Vec<(SymbolId, Operand)>)
    ensures
        copy@ == definitions@,
{
    let mut copy: Vec<(SymbolId, Operand)> = Vec::new();
    let mut i: usize = 0;
    while i < definitions.len()
        invariant
            0 <= i <= definitions.len(),
            copy@ =~= definitions@.subrange(0, i as int),
        decreases definitions.len() - i,
    {
        copy.push(definitions[i]);
        i = i + 1;
    }
    proof {
        assert(copy@ =~= definitions@);
    }
    copy
}

/// The position of the first definition of `symbol`.
fn find_definition(definitions: &Vec<(SymbolId, Operand)>, symbol: SymbolId) -> (index: Option<usize>)
    ensures
        match index {
            Some(i) => i < definitions.len() && definition_index(definitions@, symbol) == Some(i as int),
            None => definition_index(definitions@, symbol) is None,
        },
{
    let mut i: usize = 0;
    while i < definitions.len()
        invariant
            0 <= i <= definitions.len(),
            forall|j: int| 0 <= j < i ==> definitions@[j].0 != symbol,
        decreases definitions.len() - i,
    {
        if definitions[i].0 == symbol {
            proof {
                lemma_definition_index(definitions@, symbol);
                match definition_index(definitions@, symbol) {
                    Some(k) => {
                        if k < i {
                        } else if k > i {
                            assert(definitions@[i as int].0 == symbol);
                        }
                    },
                    None => {
                        assert(definitions@[i as int].0 == symbol);
                    },
                }
            }
            return Some(i);
        }
        i = i + 1;
    }
    proof {
        lemma_definition_index(definitions@, symbol);
        if let Some(k) = definition_index(definitions@, symbol) {
            assert(definitions@[k].0 == symbol);
        }
    }
    None
}

/// Whether no symbol has two definitions.
pub open spec fn symbols_distinct(definitions: Seq<(SymbolId, Operand)>) -> bool {
    forall|i: int, j: int|
        0 <= i < j < definitions.len() ==> #[trigger] definitions[i].0 != #[trigger] definitions[j].0
}

/// What each defined symbol stands for, in the order the symbols were first defined.
pub struct Definitions {
    order: Vec<SymbolId>,
    operands: HashMap<SymbolId, Operand>,
}

impl View for Definitions {
    type V = Seq<(SymbolId, Operand)>;

    closed spec fn view(&self) -> Seq<(SymbolId, Operand)> {
        Seq::new(self.order@.len(), |i: int| (self.order@[i], self.operands@[self.order@[i]]))
    }
}

impl Definitions {
    #[verifier::type_invariant]
    closed spec fn wf(self) -> bool {
        &&& self.order@.no_duplicates()
        &&& forall|symbol: SymbolId| #[trigger] self.operands@.contains_key(symbol) <==> self.order@.contains(symbol)
    }

    /// No definitions.
    pub fn new() -> (definitions: Self)
        ensures
            definitions@ == Seq::<(SymbolId, Operand)>::empty(),
    {
        let definitions = Definitions { order: Vec::new(), operands: HashMap::new() };
        assert(definitions@ =~= Seq::<(SymbolId, Operand)>::empty());
        definitions
    }

    /// The same definitions, in the same order.
    pub fn copy(&self) -> (copy: Self)
        ensures
            copy@ == self@,
    {
        proof {
            use_type_invariant(self);
        }
        let order = self.order.clone();
        assert(order@ =~= self.order@);
        let copy = Definitions { order, operands: self.operands.clone() };
        assert(copy@ =~= self@);
        copy
    }

    /// The number of defined symbols; no symbol is defined twice.
    pub fn len(&self) -> (n: usize)
        ensures
            n == self@.len(),
            symbols_distinct(self@),
    {
        proof {
            use_type_invariant(self);
            assert forall|i: int, j: int| 0 <= i < j < self@.len() implies #[trigger] self@[i].0
                != #[trigger] self@[j].0 by {
                assert(self@[i].0 == self.order@[i]);
                assert(self@[j].0 == self.order@[j]);
            }
        }
        self.order.len()
    }

    /// The `k`-th definition.
    pub fn entry(&self, k: usize) -> (entry: (SymbolId, Operand))
        requires
            k < self@.len(),
        ensures
            entry == self@[k as int],
    {
        proof {
            use_type_invariant(self);
        }
        let symbol = self.order[k];
        assert(self.order@.contains(symbol));
        match self.operands.get(&symbol) {
            Some(operand) => (symbol, *operand),
            None => (symbol, Operand::Constant(0)),
        }
    }

    /// What `symbol` stands for, if it is defined.
    pub fn find(&self, symbol: SymbolId) -> (operand: Option<Operand>)
        ensures
            operand == lookup_definition(self@, symbol),
    {
        proof {
            use_type_invariant(self);
            lemma_definition_index(self@, symbol);
        }
        let found = self.operands.get(&symbol);
        proof {
            if self.order@.contains(symbol) {
                let i = choose|i: int| 0 <= i < self.order@.len() && self.order@[i] == symbol;
                assert(self@[i].0 == symbol);
                if let Some(j) = definition_index(self@, symbol) {
                    assert(self.order@[j] == symbol);
                }
            } else if let Some(j) = definition_index(self@, symbol) {
                assert(self.order@[j] == symbol);
                assert(self.order@.contains(symbol));
            }
        }
        match found {
            Some(operand) => Some(*operand),
            None => None,
        }
    }

    /// What `symbol` stands for, or the constant 0 where it is not defined.
    pub fn operand_or_zero(&self, symbol: SymbolId) -> (operand: Operand)
        ensures
            operand == branch_operand(self@, symbol),
    {
        match self.find(symbol) {
            Some(operand) => operand,
            None => Operand::Constant(0),
        }
    }

    /// Adds a definition of a symbol that has none, at the end.
    pub fn push(&mut self, symbol: SymbolId, operand: Operand)
        requires
            forall|j: int| 0 <= j < old(self)@.len() ==> (#[trigger] old(self)@[j]).0 != symbol,
        ensures
            final(self)@ == old(self)@.push((symbol, operand)),
    {
        let mut taken = Definitions::new();
        std::mem::swap(&mut taken, self);
        proof {
            use_type_invariant(&taken);
            assert(!taken.order@.contains(symbol)) by {
                if taken.order@.contains(symbol) {
                    let i = choose|i: int| 0 <= i < taken.order@.len() && taken.order@[i] == symbol;
                    assert(taken@[i].0 == symbol);
                }
            }
        }
        let ghost before = taken@;
        let ghost old_order = taken.order@;
        let Definitions { mut order, mut operands } = taken;
        order.push(symbol);
        operands.insert(symbol, operand);
        proof {
            assert(order@ == old_order.push(symbol));
            assert forall|x: SymbolId| #[trigger] operands@.contains_key(x) <==> order@.contains(x) by {
                if x != symbol && order@.contains(x) {
                    let i = choose|i: int| 0 <= i < order@.len() && order@[i] == x;
                    assert(old_order[i] == x);
                }
                if x != symbol && old_order.contains(x) {
                    let i = choose|i: int| 0 <= i < old_order.len() && old_order[i] == x;
                    assert(order@[i] == x);
                }
                if x == symbol {
                    assert(order@[order@.len() - 1] == x);
                }
            }
        }
        *self = Definitions { order, operands };
        proof {
            assert forall|i: int| 0 <= i < before.len() implies self.order@[i] != symbol by {
                assert(self.order@[i] == old_order[i]);
            }
            assert(self@ =~= before.push((symbol, operand)));
        }
    }

    /// Defines `symbol` to stand for `operand`: in place where it was defined, at the end where
    /// it was not.
    pub fn define(&mut self, symbol: SymbolId, operand: Operand)
        ensures
            final(self)@ == define_spec(old(self)@, symbol, operand),
    {
        proof {
            use_type_invariant(&*self);
            lemma_definition_index(self@, symbol);
        }
        if self.operands.contains_key(&symbol) {
            let mut taken = Definitions::new();
        std::mem::swap(&mut taken, self);
            let ghost before = taken@;
            let ghost i = choose|i: int| 0 <= i < taken.order@.len() && taken.order@[i] == symbol;
            proof {
                assert(before[i].0 == symbol);
                if let Some(j) = definition_index(before, symbol) {
                    assert(taken.order@[j] == symbol);
                    assert(i == j);
                }
            }
            let Definitions { order, mut operands } = taken;
            operands.insert(symbol, operand);
            *self = Definitions { order, operands };
            proof {
                assert forall|k: int| 0 <= k < before.len() && k != i implies self.order@[k] != symbol by {}
                assert(self@ =~= before.update(i, (symbol, operand)));
            }
        } else {
            proof {
                assert forall|j: int| 0 <= j < self@.len() implies (#[trigger] self@[j]).0 != symbol by {
                    assert(self.order@[j] == self@[j].0);
                    assert(self.order@.contains(self.order@[j]));
                }
            }
            self.push(symbol, operand);
        }
    }

    /// The definitions as a list.
    pub fn to_vec(&self) -> (list: Vec<(SymbolId, Operand)>)
        ensures
            list@ == self@,
    {
        let mut list: Vec<(SymbolId, Operand)> = Vec::new();
        let mut k: usize = 0;
        while k < self.len()
            invariant
                k <= self@.len(),
                list@ =~= self@.take(k as int),
            decreases self@.len() - k,
        {
            list.push(self.entry(k));
            k = k + 1;
        }
        assert(list@ =~= self@);
        list
    }
}

/// Builds a control-flow graph from a typed program, one basic block at a time.
pub struct CfgBuilder {
    blocks: Vec<BasicBlock>,
    current: BlockId,
    next_value: ValueId,
    definitions: Definitions,
}

impl Default for CfgBuilder {
    fn default() -> (builder: Self)
        ensures
            builder.state() == initial_build_state(),
    {
        Self::new()
    }
}

impl CfgBuilder {
    /// The construction state the builder holds.
    pub closed spec fn state(self) -> BuildState {
        BuildState {
            blocks: blocks_view(self.blocks@),
            current: self.current as int,
            next_value: self.next_value as int,
            definitions: self.definitions@,
        }
    }

    /// A builder with one empty entry block and nothing defined.
    pub fn new() -> (builder: Self)
        ensures
            builder.state() == initial_build_state(),
    {
        let mut blocks: Vec<BasicBlock> = Vec::new();
        blocks.push(BasicBlock { id: 0, instructions: Vec::new(), terminator: None });
        let builder = CfgBuilder { blocks, current: 0, next_value: 0, definitions: Definitions::new() };
        proof {
            assert(instructions_view(Seq::<Instruction>::empty()) =~= Seq::<SpecInstruction>::empty());
            assert(builder.state().blocks =~= initial_build_state().blocks);
        }
        builder
    }

    /// Whether the builder can lower the program: every symbol it reads is defined before it
    /// is read, and its size keeps the value and block counters within 32 bits.
    pub fn can_build(&self, program: &TypedProgram) -> (ok: bool)
        requires
            build_state_wf(self.state()),
        ensures
            ok == (block_scoped(defined_symbols(self.state().definitions), program.spec_statements())
                && within_limits(self.state(), program.spec_statements())),
            ok ==> fits(build_statements_spec(self.state(), program.spec_statements())),
    {
        let statements = program.statements();
        let ghost view = program.spec_statements();
        if !block_defined(&self.definitions.to_vec(), statements) {
            return false;
        }
        let (ops, branches, binds) = block_size_capped(statements);
        let ghost size = block_size(view);
        let next_value = self.next_value as u128;
        let blocks = self.blocks.len() as u128;
        let defined = self.definitions.len() as u128;
        proof {
            assert(self.state().blocks.len() == self.blocks@.len());
        }
        let ok = if ops >= SIZE_CAP || branches >= SIZE_CAP {
            false
        } else if blocks + 3 * (branches as u128) > 0x1_0000_0000 {
            false
        } else if branches == 0 {
            proof {
                assert(size.1 * (self.definitions@.len() + size.2) == 0) by (nonlinear_arith)
                    requires
                        size.1 == 0,
                ;
            }
            next_value + (ops as u128) <= 0xffff_ffff
        } else if binds >= SIZE_CAP {
            proof {
                assert(size.1 * (self.definitions@.len() + size.2) >= SIZE_CAP) by (nonlinear_arith)
                    requires
                        size.1 >= 1,
                        size.2 >= SIZE_CAP,
                ;
            }
            false
        } else {
            assert((branches as u128) * (defined + binds as u128) <= 0x1_0000_0000 * 0x2_0000_0000_0000_0000)
                by (nonlinear_arith)
                requires
                    branches < 0x1_0000_0000,
                    defined + binds < 0x2_0000_0000_0000_0000,
            ;
            let product = (branches as u128) * (defined + binds as u128);
            assert(product == size.1 * (self.definitions@.len() + size.2));
            next_value + (ops as u128) + product <= 0xffff_ffff
        };
        proof {
            if ok {
                lemma_within_limits_fits(self.state(), view);
            }
        }
        ok
    }

    /// Lowers the program into blocks and returns the graph of the blocks control can reach,
    /// with each phi keeping only its inputs from blocks that still jump to its block.
    pub fn build(self, program: &TypedProgram) -> (graph: ControlFlowGraph)
        requires
            build_state_wf(self.state()),
            block_scoped(defined_symbols(self.state().definitions), program.spec_statements()),
            fits(build_statements_spec(self.state(), program.spec_statements())),
        ensures
            graph@ == crate::cfg_opt::simplify_spec(
                prune_spec(
                    SpecCfg {
                        entry: 0,
                        blocks: build_statements_spec(self.state(), program.spec_statements()).blocks,
                    },
                ),
            ),
    {
        let mut this = self;
        this.lower_statements(program.statements());
        let mut graph = ControlFlowGraph { entry: 0, blocks: this.blocks };
        graph.prune_unreachable();
        crate::cfg_opt::simplify_phis(&mut graph);
        graph
    }

    fn lower_statements(&mut self, statements: &[TypedStatement])
        requires
            build_state_wf(old(self).state()),
            fits(build_statements_spec(old(self).state(), typed_statements_view(statements@))),
        ensures
            final(self).state() == build_statements_spec(
                old(self).state(),
                typed_statements_view(statements@),
            ),
        decreases typed_statements_view(statements@), 2nat,
    {
        let ghost view = typed_statements_view(statements@);
        let ghost target = build_statements_spec(self.state(), view);
        proof {
            assert(view.subrange(0, view.len() as int) =~= view);
        }
        let mut i: usize = 0;
        while i < statements.len()
            invariant_except_break
                view == typed_statements_view(statements@),
                view.len() == statements@.len(),
                0 <= i <= statements.len(),
                build_state_wf(self.state()),
                fits(target),
                target == build_statements_spec(
                    self.state(),
                    view.subrange(i as int, view.len() as int),
                ),
            ensures
                target == self.state(),
            decreases statements.len() - i,
        {
            if self.current_terminated() {
                break;
            }
            proof {
                lemma_statements_step(self.state(), view, i as int);
                assert(view[i as int] == statements@[i as int]@);
                let after = build_statement_spec(self.state(), view[i as int]);
                lemma_build_statement_grows(self.state(), view[i as int]);
                lemma_build_statements_grows(after, view.subrange(i + 1, view.len() as int));
                assert(decreases_to!(view => view[i as int]));
            }
            self.lower_statement(&statements[i]);
            i = i + 1;
        }
        proof {
            if i == statements.len() {
                assert(view.subrange(i as int, view.len() as int) =~= Seq::<SpecTypedStatement>::empty());
            }
        }
    }

    fn lower_statement(&mut self, statement: &TypedStatement)
        requires
            build_state_wf(old(self).state()),
            fits(build_statement_spec(old(self).state(), statement@)),
        ensures
            final(self).state() == build_statement_spec(old(self).state(), statement@),
        decreases statement@, 1nat,
    {
        let ghost s = self.state();
        match statement {
            TypedStatement::Let { symbol, value } => {
                proof {
                    lemma_build_expr_grows(s, *value);
                }
                let operand = self.lower_expr(value);
                self.push_instruction(Instruction::Bind { symbol_id: symbol.id(), value: operand });
                self.define(symbol.id(), operand);
            },
            TypedStatement::Assign { symbol, value } => {
                proof {
                    lemma_build_expr_grows(s, *value);
                }
                let operand = self.lower_expr(value);
                self.push_instruction(Instruction::Bind { symbol_id: symbol.id(), value: operand });
                self.define(symbol.id(), operand);
            },
            TypedStatement::Return { value } => {
                proof {
                    lemma_build_expr_grows(s, *value);
                }
                let operand = self.lower_expr(value);
                let current = self.current;
                self.set_terminator(current, Terminator::Return(operand));
            },
            TypedStatement::If { .. } => {
                self.lower_if(statement);
            },
        }
    }

    fn lower_if(&mut self, statement: &TypedStatement)
        requires
            statement is If,
            build_state_wf(old(self).state()),
            fits(build_statement_spec(old(self).state(), statement@)),
        ensures
            final(self).state() == build_statement_spec(old(self).state(), statement@),
        decreases statement@, 0nat,
    {
        match statement {
            TypedStatement::If { condition, then_branch, else_branch } => {
                let ghost s = self.state();
                let ghost then_view = typed_statements_view(then_branch@);
                let ghost else_view = typed_statements_view(else_branch@);
                let ghost parts = if_states(s, statement@);
                proof {
                    lemma_if_chain(s, statement@);
                    assert(decreases_to!(statement@ => then_view));
                    assert(decreases_to!(statement@ => else_view));
                }
                let c = self.lower_expr(condition);
                let then_block = self.new_block();
                let else_block = self.new_block();
                let merge_block = self.new_block();
                let current = self.current;
                self.set_terminator(
                    current,
                    Terminator::Branch { condition: c, then_block, else_block },
                );
                proof {
                    assert(self.state() == parts.0);
                }
                let outer = self.definitions.copy();
                let else_start = self.definitions.copy();
                self.current = then_block;
                proof {
                    assert(self.state() == with_current(parts.0, then_block as int));
                }
                self.lower_statements(then_branch.as_slice());
                let then_end = self.current;
                let then_live = !self.current_terminated();
                if then_live {
                    self.set_terminator(then_end, Terminator::Jump(merge_block));
                }
                proof {
                    assert(self.state() == parts.2);
                }
                let mut then_definitions = else_start;
                std::mem::swap(&mut then_definitions, &mut self.definitions);
                self.current = else_block;
                proof {
                    assert(self.state() == with_definitions(
                        with_current(parts.2, else_block as int),
                        parts.0.definitions,
                    ));
                }
                self.lower_statements(else_branch.as_slice());
                let else_end = self.current;
                let else_live = !self.current_terminated();
                if else_live {
                    self.set_terminator(else_end, Terminator::Jump(merge_block));
                }
                proof {
                    assert(self.state() == parts.4);
                }
                let mut else_definitions = Definitions::new();
                std::mem::swap(&mut else_definitions, &mut self.definitions);
                self.current = merge_block;
                proof {
                    assert(self.state() == with_definitions(
                        with_current(parts.4, merge_block as int),
                        Seq::empty(),
                    ));
                }
                self.merge_definitions(
                    &outer,
                    &then_definitions,
                    &else_definitions,
                    then_end,
                    else_end,
                    then_live,
                    else_live,
                );
            },
            _ => {},
        }
    }

    fn merge_definitions(
        &mut self,
        outer: &Definitions,
        then_definitions: &Definitions,
        else_definitions: &Definitions,
        then_end: BlockId,
        else_end: BlockId,
        then_live: bool,
        else_live: bool,
    )
        requires
            build_state_wf(old(self).state()),
            old(self).state().definitions.len() == 0,
            fits(
                merge_spec(
                    old(self).state(),
                    outer@,
                    0,
                    then_definitions@,
                    else_definitions@,
                    then_end as int,
                    else_end as int,
                    then_live,
                    else_live,
                ),
            ),
        ensures
            final(self).state() == merge_spec(
                old(self).state(),
                outer@,
                0,
                then_definitions@,
                else_definitions@,
                then_end as int,
                else_end as int,
                then_live,
                else_live,
            ),
    {
        let ghost target = merge_spec(
            self.state(),
            outer@,
            0,
            then_definitions@,
            else_definitions@,
            then_end as int,
            else_end as int,
            then_live,
            else_live,
        );
        let mut k: usize = 0;
        let n = outer.len();
        while k < n
            invariant
                n == outer@.len(),
                symbols_distinct(outer@),
                0 <= k <= outer@.len(),
                self.state().definitions.len() == k,
                forall|j: int| 0 <= j < k ==> (#[trigger] self.state().definitions[j]).0 == outer@[j].0,
                build_state_wf(self.state()),
                fits(target),
                target == merge_spec(
                    self.state(),
                    outer@,
                    k as int,
                    then_definitions@,
                    else_definitions@,
                    then_end as int,
                    else_end as int,
                    then_live,
                    else_live,
                ),
            decreases outer@.len() - k,
        {
            let (symbol, fallback) = outer.entry(k);
            proof {
                assert forall|j: int| 0 <= j < self.definitions@.len() implies (
                #[trigger] self.definitions@[j]).0 != symbol by {
                    assert(self.state().definitions[j].0 == outer@[j].0);
                }
            }
            let ghost next = merge_step(
                self.state(),
                symbol,
                fallback,
                then_definitions@,
                else_definitions@,
                then_end as int,
                else_end as int,
                then_live,
                else_live,
            );
            proof {
                lemma_merge_step_grows(
                    self.state(),
                    symbol,
                    fallback,
                    then_definitions@,
                    else_definitions@,
                    then_end as int,
                    else_end as int,
                    then_live,
                    else_live,
                );
                lemma_merge_grows(
                    next,
                    outer@,
                    k + 1,
                    then_definitions@,
                    else_definitions@,
                    then_end as int,
                    else_end as int,
                    then_live,
                    else_live,
                );
            }
            let t = then_definitions.operand_or_zero(symbol);
            let e = else_definitions.operand_or_zero(symbol);
            if then_live && else_live {
                if t == e {
                    self.definitions.push(symbol, t);
                } else {
                    let result = self.allocate_value();
                    let mut incomings: Vec<(BlockId, Operand)> = Vec::new();
                    incomings.push((then_end, t));
                    incomings.push((else_end, e));
                    proof {
                        assert(incomings@ =~= seq![(then_end, t), (else_end, e)]);
                    }
                    self.push_instruction(Instruction::Phi { result, symbol_id: symbol, incomings });
                    self.definitions.push(symbol, Operand::Value(result));
                }
            } else if then_live {
                self.definitions.push(symbol, t);
            } else if else_live {
                self.definitions.push(symbol, e);
            } else {
                self.definitions.push(symbol, fallback);
            }
            proof {
                assert(self.state() == next);
            }
            k = k + 1;
        }
    }

    fn current_terminated(&self) -> (terminated: bool)
        requires
            build_state_wf(self.state()),
        ensures
            terminated == (self.state().blocks[self.state().current].terminator is Some),
    {
        let index = self.current as usize;
        proof {
            assert(self.state().blocks[index as int] == self.blocks@[index as int]@);
        }
        self.blocks[index].terminator.is_some()
    }

    fn push_instruction(&mut self, instruction: Instruction)
        requires
            build_state_wf(old(self).state()),
        ensures
            final(self).state() == with_instruction(old(self).state(), instruction@),
    {
        let index = self.current as usize;
        let ghost before = self.blocks@;
        let block = &mut self.blocks[index];
        block.instructions.push(instruction);
        proof {
            assert(instructions_view(self.blocks@[index as int].instructions@) =~= instructions_view(
                before[index as int].instructions@,
            ).push(instruction@));
            assert(blocks_view(self.blocks@) =~= with_instruction(old(self).state(), instruction@).blocks);
        }
    }

    fn set_terminator(&mut self, block: BlockId, terminator: Terminator)
        requires
            build_state_wf(old(self).state()),
            block < old(self).state().blocks.len(),
        ensures
            final(self).state() == with_terminator(old(self).state(), block as int, terminator),
    {
        let index = block as usize;
        let target = &mut self.blocks[index];
        target.terminator = Some(terminator);
        proof {
            assert(blocks_view(self.blocks@) =~= with_terminator(
                old(self).state(),
                block as int,
                terminator,
            ).blocks);
        }
    }

    fn new_block(&mut self) -> (id: BlockId)
        requires
            build_state_wf(old(self).state()),
            old(self).state().blocks.len() < u32::MAX + 1,
        ensures
            final(self).state() == with_new_block(old(self).state()),
            id == old(self).state().blocks.len(),
    {
        let id = self.blocks.len() as BlockId;
        self.blocks.push(BasicBlock { id, instructions: Vec::new(), terminator: None });
        proof {
            assert(instructions_view(Seq::<Instruction>::empty()) =~= Seq::<SpecInstruction>::empty());
            assert(blocks_view(self.blocks@) =~= with_new_block(old(self).state()).blocks);
        }
        id
    }

    fn allocate_value(&mut self) -> (id: ValueId)
        requires
            old(self).next_value < u32::MAX,
        ensures
            id == old(self).next_value,
            final(self).state() == with_next_value(old(self).state(), old(self).next_value + 1),
    {
        let id = self.next_value;
        self.next_value = self.next_value + 1;
        id
    }

    fn define(&mut self, symbol: SymbolId, operand: Operand)
        ensures
            final(self).state() == with_definitions(
                old(self).state(),
                define_spec(old(self).state().definitions, symbol, operand),
            ),
    {
        self.definitions.define(symbol, operand);
    }

    fn lower_expr(&mut self, expr: &TypedExpr) -> (operand: Operand)
        requires
            build_state_wf(old(self).state()),
            fits(build_expr_spec(old(self).state(), *expr).0),
        ensures
            (final(self).state(), operand) == build_expr_spec(old(self).state(), *expr),
        decreases expr,
    {
        match expr {
            TypedExpr::Integer { value, .. } => Operand::Constant(*value),
            TypedExpr::Boolean { value, .. } => Operand::Constant(if *value { 1 } else { 0 }),
            TypedExpr::Symbol { symbol_id, .. } => self.definitions.operand_or_zero(*symbol_id),
            TypedExpr::Binary { left, op, right, .. } => {
                let ghost s = self.state();
                proof {
                    lemma_build_expr_grows(s, **left);
                    let (s1, _) = build_expr_spec(s, **left);
                    lemma_build_expr_grows(s1, **right);
                }
                let l = self.lower_expr(left);
                let r = self.lower_expr(right);
                let result = self.allocate_value();
                self.push_instruction(Instruction::Binary { result, op: *op, left: l, right: r });
                Operand::Value(result)
            },
        }
    }
}

/// Adding a definition of `symbol` adds `symbol` to the defined symbols.
proof fn lemma_defined_push(definitions: Seq<(SymbolId, Operand)>, symbol: SymbolId, operand: Operand)
    ensures
        defined_symbols(definitions.push((symbol, operand))) == defined_symbols(definitions).insert(symbol),
{
    let pushed = definitions.push((symbol, operand));
    assert(pushed.drop_last() =~= definitions);
    assert(defined_symbols(pushed) =~= defined_symbols(definitions).insert(symbol));
}

/// Whether every symbol the expression reads has a definition.
fn expr_defined(definitions: &Vec<(SymbolId, Operand)>, expr: &TypedExpr) -> (ok: bool)
    ensures
        ok == expr_scoped(defined_symbols(definitions@), *expr),
    decreases expr,
{
    match expr {
        TypedExpr::Symbol { symbol_id, .. } => find_definition(definitions, *symbol_id).is_some(),
        TypedExpr::Binary { left, right, .. } => expr_defined(definitions, left) && expr_defined(
            definitions,
            right,
        ),
        _ => true,
    }
}

/// Whether every symbol a block reads is defined before it.
fn block_defined(definitions: &Vec<(SymbolId, Operand)>, statements: &[TypedStatement]) -> (ok: bool)
    ensures
        ok == block_scoped(defined_symbols(definitions@), typed_statements_view(statements@)),
    decreases typed_statements_view(statements@), 2nat,
{
    let ghost view = typed_statements_view(statements@);
    let mut defs = copy_definitions(definitions);
    proof {
        assert(view.subrange(0, view.len() as int) =~= view);
    }
    let mut i: usize = 0;
    while i < statements.len()
        invariant
            view == typed_statements_view(statements@),
            view.len() == statements@.len(),
            0 <= i <= statements.len(),
            block_scoped(defined_symbols(definitions@), view) == block_scoped(
                defined_symbols(defs@),
                view.subrange(i as int, view.len() as int),
            ),
        decreases statements.len() - i,
    {
        let ghost rest = view.subrange(i as int, view.len() as int);
        proof {
            assert(rest[0] == view[i as int]);
            assert(rest.subrange(1, rest.len() as int) =~= view.subrange(i + 1, view.len() as int));
            assert(view[i as int] == statements@[i as int]@);
            assert(decreases_to!(view => view[i as int]));
        }
        if !statement_defined(&defs, &statements[i]) {
            return false;
        }
        match &statements[i] {
            TypedStatement::Let { symbol, .. } => {
                proof {
                    lemma_defined_push(defs@, symbol.spec_id(), Operand::Constant(0));
                }
                defs.push((symbol.id(), Operand::Constant(0)));
            },
            TypedStatement::Assign { symbol, .. } => {
                proof {
                    lemma_defined_push(defs@, symbol.spec_id(), Operand::Constant(0));
                }
                defs.push((symbol.id(), Operand::Constant(0)));
            },
            _ => {},
        }
        i = i + 1;
    }
    true
}

/// Whether every symbol a statement reads is defined before it.
fn statement_defined(definitions: &Vec<(SymbolId, Operand)>, statement: &TypedStatement) -> (ok: bool)
    ensures
        ok == statement_scoped(defined_symbols(definitions@), statement@),
    decreases statement@, 1nat,
{
    match statement {
        TypedStatement::Let { value, .. } => expr_defined(definitions, value),
        TypedStatement::Assign { value, .. } => expr_defined(definitions, value),
        TypedStatement::Return { value } => expr_defined(definitions, value),
        TypedStatement::If { condition, then_branch, else_branch } => {
            let ghost then_view = typed_statements_view(then_branch@);
            let ghost else_view = typed_statements_view(else_branch@);
            proof {
                assert(statement@ == (SpecTypedStatement::If {
                    condition: *condition,
                    then_branch: then_view,
                    else_branch: else_view,
                }));
                assert(decreases_to!(statement@ => statement@->then_branch));
                assert(decreases_to!(statement@ => statement@->else_branch));
            }
            expr_defined(definitions, condition) && block_defined(definitions, then_branch.as_slice())
                && block_defined(definitions, else_branch.as_slice())
        },
    }
}

/// The value at which the size counts stop: one more than a 32-bit counter can hold.
pub const SIZE_CAP: u64 = 0x1_0000_0000;

/// `n`, or `SIZE_CAP` if it is larger.
pub open spec fn capped(n: nat) -> nat {
    if n < SIZE_CAP {
        n
    } else {
        SIZE_CAP as nat
    }
}

/// The capped sum of two counts is the capped sum of the capped counts.
pub(crate) proof fn lemma_capped_add(x: nat, y: nat)
    ensures
        capped(x + y) == (if capped(x) + capped(y) >= SIZE_CAP { SIZE_CAP as nat } else { capped(x) + capped(y) }),
{
}

/// The sum of two counts, capped.
pub(crate) fn add_capped(a: u64, b: u64) -> (sum: u64)
    requires
        a <= SIZE_CAP,
        b <= SIZE_CAP,
    ensures
        sum == (if a + b >= SIZE_CAP { SIZE_CAP as int } else { a + b }),
{
    if a + b >= SIZE_CAP {
        SIZE_CAP
    } else {
        a + b
    }
}

/// The number of operations in an expression, capped.
fn expr_ops_capped(expr: &TypedExpr) -> (n: u64)
    ensures
        n == capped(expr_ops(*expr)),
    decreases expr,
{
    match expr {
        TypedExpr::Binary { left, right, .. } => {
            let l = expr_ops_capped(left);
            let r = expr_ops_capped(right);
            proof {
                lemma_capped_add(expr_ops(**left), expr_ops(**right));
                lemma_capped_add(1, expr_ops(**left) + expr_ops(**right));
            }
            let both = add_capped(l, r);
            add_capped(1, both)
        },
        _ => 0,
    }
}

/// The size of a statement, each count capped.
fn statement_size_capped(statement: &TypedStatement) -> (size: (u64, u64, u64))
    ensures
        size.0 == capped(statement_size(statement@).0),
        size.1 == capped(statement_size(statement@).1),
        size.2 == capped(statement_size(statement@).2),
    decreases statement@, 1nat,
{
    match statement {
        TypedStatement::Let { value, .. } => (expr_ops_capped(value), 0, 1),
        TypedStatement::Assign { value, .. } => (expr_ops_capped(value), 0, 1),
        TypedStatement::Return { value } => (expr_ops_capped(value), 0, 0),
        TypedStatement::If { condition, then_branch, else_branch } => {
            proof {
                assert(decreases_to!(statement@ => statement@->then_branch));
                assert(decreases_to!(statement@ => statement@->else_branch));
            }
            let c = expr_ops_capped(condition);
            let t = block_size_capped(then_branch.as_slice());
            let e = block_size_capped(else_branch.as_slice());
            let ghost ts = block_size(typed_statements_view(then_branch@));
            let ghost es = block_size(typed_statements_view(else_branch@));
            proof {
                lemma_capped_add(ts.0, es.0);
                lemma_capped_add(expr_ops(*condition), ts.0 + es.0);
                lemma_capped_add(ts.1, es.1);
                lemma_capped_add(1, ts.1 + es.1);
                lemma_capped_add(ts.2, es.2);
            }
            let ops = add_capped(t.0, e.0);
            let branches = add_capped(t.1, e.1);
            (add_capped(c, ops), add_capped(1, branches), add_capped(t.2, e.2))
        },
    }
}

/// The size of a block, each count capped.
fn block_size_capped(statements: &[TypedStatement]) -> (size: (u64, u64, u64))
    ensures
        size.0 == capped(block_size(typed_statements_view(statements@)).0),
        size.1 == capped(block_size(typed_statements_view(statements@)).1),
        size.2 == capped(block_size(typed_statements_view(statements@)).2),
    decreases typed_statements_view(statements@), 2nat,
{
    let ghost view = typed_statements_view(statements@);
    let mut size: (u64, u64, u64) = (0, 0, 0);
    let mut i: usize = statements.len();
    proof {
        assert(view.subrange(i as int, view.len() as int) =~= Seq::<SpecTypedStatement>::empty());
    }
    while i > 0
        invariant
            view == typed_statements_view(statements@),
            view.len() == statements@.len(),
            0 <= i <= statements.len(),
            size.0 == capped(block_size(view.subrange(i as int, view.len() as int)).0),
            size.1 == capped(block_size(view.subrange(i as int, view.len() as int)).1),
            size.2 == capped(block_size(view.subrange(i as int, view.len() as int)).2),
        decreases i,
    {
        let ghost after = view.subrange(i as int, view.len() as int);
        i = i - 1;
        let ghost here = view.subrange(i as int, view.len() as int);
        proof {
            assert(here[0] == view[i as int]);
            assert(here.subrange(1, here.len() as int) =~= after);
            assert(view[i as int] == statements@[i as int]@);
            assert(decreases_to!(view => view[i as int]));
        }
        let first = statement_size_capped(&statements[i]);
        proof {
            let f = statement_size(view[i as int]);
            let r = block_size(after);
            lemma_capped_add(f.0, r.0);
            lemma_capped_add(f.1, r.1);
            lemma_capped_add(f.2, r.2);
        }
        size = (add_capped(first.0, size.0), add_capped(first.1, size.1), add_capped(first.2, size.2));
    }
    proof {
        assert(view.subrange(0, view.len() as int) =~= view);
    }
    size
}

/// The symbols that have a definition.
pub open spec fn defined_symbols(definitions: Seq<(SymbolId, Operand)>) -> Set<SymbolId> {
    Set::new(|symbol: SymbolId| definition_index(definitions, symbol) is Some)
}

} // verus!
