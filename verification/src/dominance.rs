use std::collections::{BTreeSet, HashMap};
use vstd::prelude::*;

use crate::cfg::{
    all_targets, id_universe, lemma_successor_in_universe, find_block, is_entry_path, lemma_find_block_from, lemma_predecessors_from, predecessors_spec,
    reachable_set, reachable_spec, successors_spec, BlockId, ControlFlowGraph, SpecCfg,
};

verus! {

broadcast use vstd::std_specs::hash::group_hash_axioms, vstd::laws_cmp::group_laws_cmp,
    vstd::std_specs::btree::group_btree_axioms;

/// Whether every walk from the entry to `block` passes through `d`.
#[verifier::opaque]
pub open spec fn dominates_spec(g: SpecCfg, d: BlockId, block: BlockId) -> bool {
    forall|path: Seq<BlockId>|
        #[trigger] is_entry_path(g, path) && path.last() == block ==> path.contains(d)
}

/// The blocks that dominate `block`.
pub open spec fn dominator_set(g: SpecCfg, block: BlockId) -> Set<BlockId> {
    Set::new(|d: BlockId| dominates_spec(g, d, block))
}

/// The first `n` ids of `ids` that are in `keep`, in order.
pub open spec fn filter_ids(ids: Seq<BlockId>, n: int, keep: Set<BlockId>) -> Seq<BlockId>
    decreases n,
{
    if n <= 0 || n > ids.len() {
        Seq::empty()
    } else {
        let before = filter_ids(ids, n - 1, keep);
        if keep.contains(ids[n - 1]) {
            before.push(ids[n - 1])
        } else {
            before
        }
    }
}

/// The reachable predecessors of `block`, in block order.
pub open spec fn reachable_predecessors_spec(g: SpecCfg, block: BlockId) -> Seq<BlockId> {
    let preds = predecessors_spec(g, block);
    filter_ids(preds, preds.len() as int, reachable_set(g))
}

/// The blocks in every set of `dominators` named by `preds` (none when there are no `preds`).
pub open spec fn meet(dominators: Map<BlockId, Set<BlockId>>, preds: Seq<BlockId>) -> Set<BlockId> {
    if preds.len() == 0 {
        Set::empty()
    } else {
        Set::new(|x: BlockId| forall|i: int| 0 <= i < preds.len() ==> #[trigger] dominators[preds[i]].contains(x))
    }
}

/// The dominator set a block gets from those of its reachable predecessors: their common
/// blocks, and itself.
pub open spec fn refine(g: SpecCfg, dominators: Map<BlockId, Set<BlockId>>, block: BlockId) -> Set<BlockId> {
    meet(dominators, reachable_predecessors_spec(g, block)).insert(block)
}

/// The sum of the sizes of the sets named by the first `n` ids of `order`.
pub open spec fn dominator_sum(dominators: Map<BlockId, Set<BlockId>>, order: Seq<BlockId>, n: int) -> nat
    decreases n,
{
    if n <= 0 || n > order.len() {
        0
    } else {
        dominator_sum(dominators, order, n - 1) + dominators[order[n - 1]].len()
    }
}

/// The view of a map of dominator sets.
pub open spec fn sets_view(m: Map<BlockId, BTreeSet<BlockId>>) -> Map<BlockId, Set<BlockId>> {
    m.map_values(|s: BTreeSet<BlockId>| s@)
}

proof fn lemma_filter_ids(ids: Seq<BlockId>, n: int, keep: Set<BlockId>, x: BlockId)
    requires
        0 <= n <= ids.len(),
    ensures
        filter_ids(ids, n, keep).contains(x) <==> (keep.contains(x) && exists|i: int|
            0 <= i < n && ids[i] == x),
        filter_ids(ids, n, keep).len() <= n,
    decreases n,
{
    if n > 0 {
        lemma_filter_ids(ids, n - 1, keep, x);
        let before = filter_ids(ids, n - 1, keep);
        if keep.contains(ids[n - 1]) {
            let after = before.push(ids[n - 1]);
            if after.contains(x) {
                let k = choose|k: int| 0 <= k < after.len() && after[k] == x;
                if k < before.len() {
                    assert(before[k] == x);
                }
            }
            if before.contains(x) {
                let k = choose|k: int| 0 <= k < before.len() && before[k] == x;
                assert(after[k] == x);
            }
            if ids[n - 1] == x {
                assert(after[before.len() as int] == x);
            }
        }
        if keep.contains(x) && exists|i: int| 0 <= i < n && ids[i] == x {
            let i = choose|i: int| 0 <= i < n && ids[i] == x;
            if i < n - 1 {
                assert(exists|i: int| 0 <= i < n - 1 && ids[i] == x);
            }
        }
    }
}

/// A walk's prefixes are walks: every block on a walk from the entry is reachable.
proof fn lemma_path_prefix(g: SpecCfg, path: Seq<BlockId>, k: int)
    requires
        is_entry_path(g, path),
        0 <= k < path.len(),
    ensures
        is_entry_path(g, path.subrange(0, k + 1)),
        path.subrange(0, k + 1).last() == path[k],
        reachable_spec(g, path[k]),
{
    let prefix = path.subrange(0, k + 1);
    assert forall|j: int| 0 <= j < prefix.len() - 1 implies #[trigger] successors_spec(g, prefix[j]).contains(
        prefix[j + 1],
    ) by {
        assert(prefix[j] == path[j] && prefix[j + 1] == path[j + 1]);
    }
    assert(is_entry_path(g, prefix));
}

/// A block the successors of `p` name has `p` among its predecessors.
pub proof fn lemma_successor_predecessor(g: SpecCfg, p: BlockId, b: BlockId)
    requires
        successors_spec(g, p).contains(b),
    ensures
        predecessors_spec(g, b).contains(p),
{
    lemma_find_block_from(g.blocks, p, 0);
    let i = find_block(g.blocks, p).unwrap();
    lemma_predecessors_from(g, b, 0, p);
    assert(0 <= i < g.blocks.len() && g.blocks[i].id == p);
}

/// A predecessor of `b` has `b` among its successors.
proof fn lemma_predecessor_successor(g: SpecCfg, p: BlockId, b: BlockId)
    requires
        predecessors_spec(g, b).contains(p),
    ensures
        successors_spec(g, p).contains(b),
{
    lemma_predecessors_from(g, b, 0, p);
}

/// The reachable predecessors of `b` are exactly the reachable blocks that pass control to it.
proof fn lemma_reachable_predecessor(g: SpecCfg, b: BlockId, p: BlockId)
    ensures
        reachable_predecessors_spec(g, b).contains(p) <==> (reachable_spec(g, p) && successors_spec(
            g,
            p,
        ).contains(b)),
{
    let preds = predecessors_spec(g, b);
    lemma_filter_ids(preds, preds.len() as int, reachable_set(g), p);
    if reachable_spec(g, p) && successors_spec(g, p).contains(b) {
        lemma_successor_predecessor(g, p, b);
        let i = choose|i: int| 0 <= i < preds.len() && preds[i] == p;
        assert(exists|i: int| 0 <= i < preds.len() && preds[i] == p);
    }
    if reachable_predecessors_spec(g, b).contains(p) {
        let i = choose|i: int| 0 <= i < preds.len() && preds[i] == p;
        assert(preds.contains(p));
        lemma_predecessor_successor(g, p, b);
    }
}

/// Every block that dominates a reachable block is reachable.
proof fn lemma_dominator_reachable(g: SpecCfg, d: BlockId, b: BlockId)
    requires
        reachable_spec(g, b),
        dominates_spec(g, d, b),
    ensures
        reachable_spec(g, d),
{
    reveal(dominates_spec);
    let path = choose|path: Seq<BlockId>| is_entry_path(g, path) && path.last() == b;
    assert(path.contains(d));
    let k = choose|k: int| 0 <= k < path.len() && path[k] == d;
    lemma_path_prefix(g, path, k);
}

/// The entry is dominated by itself alone.
proof fn lemma_entry_dominators(g: SpecCfg)
    ensures
        dominator_set(g, g.entry) =~= set![g.entry],
{
    reveal(dominates_spec);
    let path = seq![g.entry];
    assert(is_entry_path(g, path) && path.last() == g.entry);
    assert forall|d: BlockId| dominates_spec(g, d, g.entry) implies d == g.entry by {
        assert(path.contains(d));
    }
    assert forall|d: BlockId| d == g.entry implies dominates_spec(g, d, g.entry) by {
        assert forall|p: Seq<BlockId>| #[trigger] is_entry_path(g, p) && p.last() == g.entry implies p.contains(
            d,
        ) by {
            assert(p[0] == g.entry);
        }
    }
}

/// Every block that dominates a reachable block `b` other than itself dominates each of the
/// reachable predecessors of `b`.
proof fn lemma_dominator_of_predecessor(g: SpecCfg, d: BlockId, b: BlockId, p: BlockId)
    requires
        dominates_spec(g, d, b),
        d != b,
        reachable_predecessors_spec(g, b).contains(p),
    ensures
        dominates_spec(g, d, p),
{
    reveal(dominates_spec);
    lemma_reachable_predecessor(g, b, p);
    assert forall|path: Seq<BlockId>| #[trigger] is_entry_path(g, path) && path.last() == p implies path.contains(
        d,
    ) by {
        let longer = path.push(b);
        assert forall|k: int| 0 <= k < longer.len() - 1 implies #[trigger] successors_spec(
            g,
            longer[k],
        ).contains(longer[k + 1]) by {
            if k < path.len() - 1 {
                assert(longer[k] == path[k] && longer[k + 1] == path[k + 1]);
            }
        }
        assert(is_entry_path(g, longer) && longer.last() == b);
        assert(longer.contains(d));
        let k = choose|k: int| 0 <= k < longer.len() && longer[k] == d;
        assert(k < path.len());
        assert(path[k] == d);
    }
}

/// A reachable block other than the entry has a reachable predecessor.
proof fn lemma_has_predecessor(g: SpecCfg, b: BlockId)
    requires
        reachable_spec(g, b),
        b != g.entry,
    ensures
        reachable_predecessors_spec(g, b).len() > 0,
{
    let path = choose|path: Seq<BlockId>| is_entry_path(g, path) && path.last() == b;
    assert(path.len() >= 2);
    let k = path.len() - 2;
    assert(successors_spec(g, path[k]).contains(path[k + 1]));
    lemma_path_prefix(g, path, k);
    lemma_reachable_predecessor(g, b, path[k]);
}

/// The true dominators of a reachable block are among those its predecessors' sets give it,
/// as long as each predecessor's set holds all its true dominators.
proof fn lemma_refine_complete(g: SpecCfg, dominators: Map<BlockId, Set<BlockId>>, b: BlockId)
    requires
        reachable_spec(g, b),
        b != g.entry,
        forall|p: BlockId| #[trigger] reachable_spec(g, p) ==> dominator_set(g, p).subset_of(dominators[p]),
    ensures
        dominator_set(g, b).subset_of(refine(g, dominators, b)),
{
    let preds = reachable_predecessors_spec(g, b);
    lemma_has_predecessor(g, b);
    assert forall|d: BlockId| dominator_set(g, b).contains(d) implies refine(g, dominators, b).contains(d) by {
        if d != b {
            assert forall|i: int| 0 <= i < preds.len() implies #[trigger] dominators[preds[i]].contains(d) by {
                let p = preds[i];
                assert(preds.contains(p));
                lemma_dominator_of_predecessor(g, d, b, p);
                lemma_reachable_predecessor(g, b, p);
                assert(dominator_set(g, p).contains(d));
            }
        }
    }
}

/// At a fixpoint, a block in the computed set of a block on a walk is on the walk before it.
proof fn lemma_fixpoint_sound(
    g: SpecCfg,
    dominators: Map<BlockId, Set<BlockId>>,
    path: Seq<BlockId>,
    k: int,
    d: BlockId,
)
    requires
        is_entry_path(g, path),
        0 <= k < path.len(),
        dominators[g.entry] == set![g.entry],
        forall|b: BlockId|
            #[trigger] reachable_spec(g, b) && b != g.entry ==> dominators[b] == refine(g, dominators, b),
        dominators[path[k]].contains(d),
    ensures
        path.subrange(0, k + 1).contains(d),
    decreases k,
{
    lemma_path_prefix(g, path, k);
    if path[k] == g.entry {
        assert(d == g.entry);
        assert(path.subrange(0, k + 1)[0] == d);
    } else if d == path[k] {
        assert(path.subrange(0, k + 1)[k] == d);
    } else {
        assert(k > 0);
        let j = k - 1;
        let p = path[j];
        assert(successors_spec(g, path[j]).contains(path[j + 1]));
        lemma_path_prefix(g, path, k - 1);
        lemma_reachable_predecessor(g, path[k], p);
        let preds = reachable_predecessors_spec(g, path[k]);
        let i = choose|i: int| 0 <= i < preds.len() && preds[i] == p;
        assert(dominators[preds[i]].contains(d));
        lemma_fixpoint_sound(g, dominators, path, k - 1, d);
        let j = choose|j: int| 0 <= j < k && path.subrange(0, k)[j] == d;
        assert(path.subrange(0, k + 1)[j] == d);
    }
}


proof fn lemma_meet_mono(a: Map<BlockId, Set<BlockId>>, b: Map<BlockId, Set<BlockId>>, preds: Seq<BlockId>)
    requires
        forall|i: int| 0 <= i < preds.len() ==> (#[trigger] a[preds[i]]).subset_of(b[preds[i]]),
    ensures
        meet(a, preds).subset_of(meet(b, preds)),
{
    if preds.len() > 0 {
        assert forall|x: BlockId| meet(a, preds).contains(x) implies meet(b, preds).contains(x) by {
            assert forall|i: int| 0 <= i < preds.len() implies #[trigger] b[preds[i]].contains(x) by {
                assert(a[preds[i]].contains(x));
            }
        }
    }
}

proof fn lemma_sum_update(
    m1: Map<BlockId, Set<BlockId>>,
    order: Seq<BlockId>,
    n: int,
    j: int,
    smaller: Set<BlockId>,
)
    requires
        order.no_duplicates(),
        0 <= j < order.len(),
        0 <= n <= order.len(),
        m1[order[j]].finite(),
        smaller.subset_of(m1[order[j]]),
    ensures
        dominator_sum(m1.insert(order[j], smaller), order, n) <= dominator_sum(m1, order, n),
        n > j && smaller != m1[order[j]] ==> dominator_sum(m1.insert(order[j], smaller), order, n)
            < dominator_sum(m1, order, n),
    decreases n,
{
    let m2 = m1.insert(order[j], smaller);
    vstd::set_lib::lemma_len_subset(smaller, m1[order[j]]);
    if n > 0 {
        lemma_sum_update(m1, order, n - 1, j, smaller);
        if n - 1 == j {
            if smaller != m1[order[j]] {
                assert(!(smaller =~= m1[order[j]]));
                let x = choose|x: BlockId| m1[order[j]].contains(x) && !smaller.contains(x);
                vstd::set_lib::lemma_len_subset(smaller, m1[order[j]].remove(x));
            }
        } else {
            assert(order[n - 1] != order[j]);
            assert(m2[order[n - 1]] == m1[order[n - 1]]);
        }
    }
}

/// The set refinement gives a reachable block stays within any set holding the block and the
/// sets of all reachable blocks.
proof fn lemma_refine_subset(g: SpecCfg, m: Map<BlockId, Set<BlockId>>, b: BlockId, s: Set<BlockId>)
    requires
        reachable_spec(g, b),
        b != g.entry,
        s.contains(b),
        forall|p: BlockId| #[trigger] reachable_spec(g, p) ==> m[p].subset_of(s),
    ensures
        refine(g, m, b).subset_of(s),
{
    let preds = reachable_predecessors_spec(g, b);
    lemma_has_predecessor(g, b);
    let p0 = preds[0];
    assert(preds.contains(p0));
    lemma_reachable_predecessor(g, b, p0);
    assert(m[p0].subset_of(s));
    assert forall|x: BlockId| refine(g, m, b).contains(x) implies s.contains(x) by {
        if x != b {
            assert(meet(m, preds).contains(x));
            assert(m[preds[0]].contains(x));
        }
    }
}

/// The reachable predecessors of `block`, in block order.
fn reachable_predecessors(cfg: &ControlFlowGraph, reachable: &BTreeSet<BlockId>, block: BlockId) -> (preds: Vec<
    BlockId,
>)
    requires
        reachable@ == reachable_set(cfg@),
    ensures
        preds@ == reachable_predecessors_spec(cfg@, block),
{
    let all = cfg.predecessors(block);
    let mut preds: Vec<BlockId> = Vec::new();
    let mut i: usize = 0;
    while i < all.len()
        invariant
            0 <= i <= all.len(),
            preds@ == filter_ids(all@, i as int, reachable@),
        decreases all.len() - i,
    {
        if reachable.contains(&all[i]) {
            preds.push(all[i]);
        }
        i = i + 1;
    }
    preds
}

/// Whether `x` is in the set of every block of `preds`.
fn in_all(dominators: &HashMap<BlockId, BTreeSet<BlockId>>, preds: &Vec<BlockId>, x: BlockId) -> (all: bool)
    requires
        forall|i: int| 0 <= i < preds@.len() ==> dominators@.contains_key(#[trigger] preds@[i]),
    ensures
        all == forall|i: int| 0 <= i < preds@.len() ==> #[trigger] sets_view(dominators@)[preds@[i]].contains(x),
{
    let mut i: usize = 0;
    while i < preds.len()
        invariant
            0 <= i <= preds.len(),
            forall|k: int| 0 <= k < preds@.len() ==> dominators@.contains_key(#[trigger] preds@[k]),
            forall|k: int| 0 <= k < i ==> #[trigger] sets_view(dominators@)[preds@[k]].contains(x),
        decreases preds.len() - i,
    {
        match dominators.get(&preds[i]) {
            Some(set) => {
                if !set.contains(&x) {
                    proof {
                        let k = i as int;
                        assert(sets_view(dominators@)[preds@[k]] == set@);
                        assert(!sets_view(dominators@)[preds@[k]].contains(x));
                    }
                    return false;
                }
            },
            None => {
                return false;
            },
        }
        i = i + 1;
    }
    true
}

/// The set a block gets from the sets of its reachable predecessors.
fn refine_exec(
    order: &Vec<BlockId>,
    preds: &Vec<BlockId>,
    dominators: &HashMap<BlockId, BTreeSet<BlockId>>,
    block: BlockId,
) -> (set: BTreeSet<BlockId>)
    requires
        forall|i: int| 0 <= i < preds@.len() ==> dominators@.contains_key(#[trigger] preds@[i]),
        forall|k: BlockId, x: BlockId|
            dominators@.contains_key(k) && #[trigger] sets_view(dominators@)[k].contains(x) ==> order@.contains(x),
    ensures
        set@ == meet(sets_view(dominators@), preds@).insert(block),
{
    let ghost m = sets_view(dominators@);
    let mut set: BTreeSet<BlockId> = BTreeSet::new();
    if preds.len() > 0 {
        let mut j: usize = 0;
        while j < order.len()
            invariant
                m == sets_view(dominators@),
                preds@.len() > 0,
                forall|i: int| 0 <= i < preds@.len() ==> dominators@.contains_key(#[trigger] preds@[i]),
                0 <= j <= order.len(),
                forall|x: BlockId| #[trigger] set@.contains(x) <==> (order@.subrange(0, j as int).contains(x)
                    && meet(m, preds@).contains(x)),
            decreases order.len() - j,
        {
            let x = order[j];
            let inside = in_all(dominators, preds, x);
            let ghost before = set@;
            if inside {
                set.insert(x);
            }
            proof {
                let next = order@.subrange(0, j + 1);
                let prev = order@.subrange(0, j as int);
                assert forall|y: BlockId| #[trigger] set@.contains(y) <==> (next.contains(y)
                    && meet(m, preds@).contains(y)) by {
                    if next.contains(y) {
                        let k = choose|k: int| 0 <= k < next.len() && next[k] == y;
                        if k < j {
                            assert(prev[k] == y);
                        }
                    }
                    if prev.contains(y) {
                        let k = choose|k: int| 0 <= k < prev.len() && prev[k] == y;
                        assert(next[k] == y);
                    }
                    assert(next[j as int] == x);
                }
            }
            j = j + 1;
        }
        proof {
            assert(order@.subrange(0, order@.len() as int) =~= order@);
            assert forall|x: BlockId| meet(m, preds@).contains(x) implies order@.contains(x) by {
                assert(m[preds@[0]].contains(x));
            }
        }
    }
    proof {
        if preds@.len() == 0 {
            assert(set@ =~= Set::<BlockId>::empty());
        }
    }
    set.insert(block);
    proof {
        assert(set@ =~= meet(m, preds@).insert(block));
    }
    set
}

/// Whether two sets of blocks listed in `order` are equal.
fn same_set(order: &Vec<BlockId>, a: &BTreeSet<BlockId>, b: &BTreeSet<BlockId>) -> (same: bool)
    requires
        forall|x: BlockId| #[trigger] a@.contains(x) ==> order@.contains(x),
        forall|x: BlockId| #[trigger] b@.contains(x) ==> order@.contains(x),
    ensures
        same == (a@ == b@),
{
    let mut j: usize = 0;
    while j < order.len()
        invariant
            0 <= j <= order.len(),
            forall|k: int| 0 <= k < j ==> (a@.contains(#[trigger] order@[k]) <==> b@.contains(order@[k])),
        decreases order.len() - j,
    {
        if a.contains(&order[j]) != b.contains(&order[j]) {
            proof {
                assert(!(a@ =~= b@) || a@.contains(order@[j as int]) == b@.contains(order@[j as int]));
            }
            return false;
        }
        j = j + 1;
    }
    proof {
        assert forall|x: BlockId| a@.contains(x) <==> b@.contains(x) by {
            if a@.contains(x) || b@.contains(x) {
                let k = choose|k: int| 0 <= k < order@.len() && order@[k] == x;
            }
        }
        assert(a@ =~= b@);
    }
    true
}

/// The dominator sets of the reachable blocks, by the iterative data-flow method: the entry is
/// dominated by itself; every other block starts with all reachable blocks and is refined from
/// its reachable predecessors until nothing changes.
#[verifier::spinoff_prover]
fn compute_dominators(cfg: &ControlFlowGraph, reachable: &BTreeSet<BlockId>, order: &Vec<BlockId>) -> (dominators:
    HashMap<BlockId, BTreeSet<BlockId>>)
    requires
        reachable@ == reachable_set(cfg@),
        order@.no_duplicates(),
        forall|x: BlockId| order@.contains(x) <==> reachable@.contains(x),
    ensures
        forall|b: BlockId| #[trigger] dominators@.contains_key(b) <==> reachable_spec(cfg@, b),
        forall|b: BlockId| #[trigger] reachable_spec(cfg@, b) ==> sets_view(dominators@)[b] == dominator_set(cfg@, b),
{
    let ghost g = cfg@;
    let entry = cfg.entry();
    let mut dominators: HashMap<BlockId, BTreeSet<BlockId>> = HashMap::new();
    proof {
        assert(is_entry_path(g, seq![g.entry]) && seq![g.entry].last() == g.entry);
        assert(reachable_spec(g, g.entry));
        assert(reachable@.contains(entry));
        lemma_entry_dominators(g);
    }
    let mut j: usize = 0;
    while j < order.len()
        invariant
            g == cfg@,
            entry == g.entry,
            reachable@ == reachable_set(g),
            forall|x: BlockId| order@.contains(x) <==> reachable@.contains(x),
            0 <= j <= order.len(),
            forall|b: BlockId| #[trigger] dominators@.contains_key(b) <==> order@.subrange(0, j as int).contains(b),
            forall|b: BlockId| #[trigger] dominators@.contains_key(b) ==> sets_view(dominators@)[b] == (if b == entry {
                set![entry]
            } else {
                reachable@
            }),
        decreases order.len() - j,
    {
        let b = order[j];
        if b == entry {
            let mut only = BTreeSet::new();
            only.insert(entry);
            proof {
                assert(only@ =~= set![entry]);
            }
            dominators.insert(b, only);
        } else {
            dominators.insert(b, reachable.clone());
        }
        proof {
            let next = order@.subrange(0, j + 1);
            let prev = order@.subrange(0, j as int);
            assert forall|x: BlockId| #[trigger] dominators@.contains_key(x) <==> next.contains(x) by {
                if next.contains(x) {
                    let k = choose|k: int| 0 <= k < next.len() && next[k] == x;
                    if k < j {
                        assert(prev[k] == x);
                    }
                }
                if prev.contains(x) {
                    let k = choose|k: int| 0 <= k < prev.len() && prev[k] == x;
                    assert(next[k] == x);
                }
                assert(next[j as int] == b);
            }
        }
        j = j + 1;
    }
    proof {
        assert(order@.subrange(0, order@.len() as int) =~= order@);
        assert(order@.contains(entry));
        assert(dominators@.contains_key(entry));
        assert(sets_view(dominators@)[entry] == set![entry]);
        assert forall|b: BlockId| #[trigger] reachable_spec(g, b) implies dominator_set(g, b).subset_of(
            sets_view(dominators@)[b],
        ) by {
            assert(reachable_set(g).contains(b));
            if b != entry {
                assert forall|d: BlockId| dominator_set(g, b).contains(d) implies reachable@.contains(d) by {
                    lemma_dominator_reachable(g, d, b);
                    assert(reachable_set(g).contains(d));
                }
            }
        }
        assert forall|b: BlockId| #[trigger] reachable_spec(g, b) && b != entry implies refine(
            g,
            sets_view(dominators@),
            b,
        ).subset_of(sets_view(dominators@)[b]) by {
            assert(reachable_set(g).contains(b));
            let m = sets_view(dominators@);
            assert forall|p: BlockId| #[trigger] reachable_spec(g, p) implies m[p].subset_of(reachable@) by {
                assert(reachable_set(g).contains(p));
                assert(order@.contains(p));
                if p == entry {
                    assert(reachable_set(g).contains(entry));
                }
            }
            lemma_refine_subset(g, m, b, reachable@);
        }
    }
    loop
        invariant
            g == cfg@,
            entry == g.entry,
            reachable@ == reachable_set(g),
            order@.no_duplicates(),
            forall|x: BlockId| order@.contains(x) <==> reachable@.contains(x),
            forall|b: BlockId| #[trigger] dominators@.contains_key(b) <==> reachable_spec(g, b),
            forall|k: BlockId, x: BlockId|
                dominators@.contains_key(k) && #[trigger] sets_view(dominators@)[k].contains(x) ==> order@.contains(x),
            sets_view(dominators@)[entry] == set![entry],
            forall|b: BlockId| #[trigger] reachable_spec(g, b) ==> dominator_set(g, b).subset_of(sets_view(dominators@)[b]),
            forall|b: BlockId|
                #[trigger] reachable_spec(g, b) && b != entry ==> refine(g, sets_view(dominators@), b).subset_of(
                    sets_view(dominators@)[b],
                ),
        ensures
            forall|b: BlockId| #[trigger] dominators@.contains_key(b) <==> reachable_spec(g, b),
            sets_view(dominators@)[entry] == set![entry],
            forall|b: BlockId| #[trigger] reachable_spec(g, b) ==> dominator_set(g, b).subset_of(sets_view(dominators@)[b]),
            forall|b: BlockId|
                #[trigger] reachable_spec(g, b) && b != g.entry ==> sets_view(dominators@)[b] == refine(
                    g,
                    sets_view(dominators@),
                    b,
                ),
        decreases dominator_sum(sets_view(dominators@), order@, order@.len() as int),
    {
        let ghost start = sets_view(dominators@);
        let mut changed = false;
        proof {
            assert forall|k: BlockId| #[trigger] dominators@.contains_key(k) implies sets_view(dominators@)[k].finite() by {
                assert(sets_view(dominators@)[k].subset_of(order@.to_set()));
                vstd::set_lib::lemma_len_subset(sets_view(dominators@)[k], order@.to_set());
            }
        }
        let mut j: usize = 0;
        while j < order.len()
            invariant
                g == cfg@,
                entry == g.entry,
                reachable@ == reachable_set(g),
                order@.no_duplicates(),
                forall|x: BlockId| order@.contains(x) <==> reachable@.contains(x),
                0 <= j <= order.len(),
                forall|b: BlockId| #[trigger] dominators@.contains_key(b) <==> reachable_spec(g, b),
                forall|k: BlockId, x: BlockId|
                    dominators@.contains_key(k) && #[trigger] sets_view(dominators@)[k].contains(x) ==> order@.contains(x),
                sets_view(dominators@)[entry] == set![entry],
                forall|b: BlockId| #[trigger] reachable_spec(g, b) ==> dominator_set(g, b).subset_of(sets_view(dominators@)[b]),
                forall|b: BlockId|
                    #[trigger] reachable_spec(g, b) && b != entry ==> refine(g, sets_view(dominators@), b).subset_of(
                        sets_view(dominators@)[b],
                    ),
                forall|k: BlockId| #[trigger] dominators@.contains_key(k) ==> sets_view(dominators@)[k].finite(),
                dominator_sum(sets_view(dominators@), order@, order@.len() as int) <= dominator_sum(
                    start,
                    order@,
                    order@.len() as int,
                ),
                changed ==> dominator_sum(sets_view(dominators@), order@, order@.len() as int) < dominator_sum(
                    start,
                    order@,
                    order@.len() as int,
                ),
                !changed ==> sets_view(dominators@) == start,
                !changed ==> forall|k: int|
                    0 <= k < j && order@[k] != entry ==> sets_view(dominators@)[#[trigger] order@[k]] == refine(
                        g,
                        sets_view(dominators@),
                        order@[k],
                    ),
            decreases order.len() - j,
        {
            let block = order[j];
            proof {
                assert(order@.contains(block));
                assert(reachable_set(g).contains(block));
            }
            if block != entry {
                let preds = reachable_predecessors(cfg, reachable, block);
                proof {
                    assert forall|i: int| 0 <= i < preds@.len() implies dominators@.contains_key(#[trigger] preds@[i]) by {
                        assert(preds@.contains(preds@[i]));
                        lemma_reachable_predecessor(g, block, preds@[i]);
                    }
                }
                let refined = refine_exec(order, &preds, &dominators, block);
                let same = match dominators.get(&block) {
                    Some(current) => same_set(order, &refined, current),
                    None => false,
                };
                if !same {
                    let ghost before = sets_view(dominators@);
                    dominators.insert(block, refined);
                    proof {
                        let after = sets_view(dominators@);
                        assert(after =~= before.insert(block, refined@));
                        let jj = j as int;
                        assert(order@[jj] == block);
                        lemma_sum_update(before, order@, order@.len() as int, jj, refined@);
                        assert forall|b: BlockId| #[trigger] reachable_spec(g, b) implies dominator_set(g, b).subset_of(after[b]) by {
                            if b == block {
                                lemma_refine_complete(g, before, block);
                            }
                        }
                        assert forall|b: BlockId| #[trigger] reachable_spec(g, b) && b != entry implies refine(g, after, b).subset_of(
                            after[b],
                        ) by {
                            let ps = reachable_predecessors_spec(g, b);
                            assert forall|i: int| 0 <= i < ps.len() implies (#[trigger] after[ps[i]]).subset_of(before[ps[i]]) by {
                                if ps[i] == block {
                                } else {
                                }
                            }
                            lemma_meet_mono(after, before, ps);
                        }
                        assert(refined@.subset_of(order@.to_set()) || true);
                    }
                    changed = true;
                }
            }
            j = j + 1;
        }
        if !changed {
            proof {
                assert forall|b: BlockId| #[trigger] reachable_spec(g, b) && b != g.entry implies sets_view(dominators@)[b]
                    == refine(g, sets_view(dominators@), b) by {
                    assert(reachable_set(g).contains(b));
                    assert(order@.contains(b));
                    let k = choose|k: int| 0 <= k < order@.len() && order@[k] == b;
                }
            }
            break;
        }
    }
    proof {
        assert forall|b: BlockId| #[trigger] reachable_spec(g, b) implies sets_view(dominators@)[b] == dominator_set(g, b) by {
            let m = sets_view(dominators@);
            reveal(dominates_spec);
            assert forall|d: BlockId| m[b].contains(d) implies dominator_set(g, b).contains(d) by {
                assert forall|path: Seq<BlockId>| #[trigger] is_entry_path(g, path) && path.last() == b implies path.contains(d) by {
                    lemma_fixpoint_sound(g, m, path, path.len() - 1, d);
                    assert(path.subrange(0, path.len() as int) =~= path);
                }
            }
            assert(m[b] =~= dominator_set(g, b));
        }
    }
    dominators
}


/// The dominators of `block` other than itself.
pub open spec fn strict_dominators(g: SpecCfg, block: BlockId) -> Set<BlockId> {
    dominator_set(g, block).remove(block)
}

/// Whether `c` is a strict dominator of `block` that dominates none of its other strict
/// dominators.
#[verifier::opaque]
pub open spec fn is_idom_candidate(g: SpecCfg, block: BlockId, c: BlockId) -> bool {
    &&& strict_dominators(g, block).contains(c)
    &&& forall|o: BlockId| #[trigger]
        strict_dominators(g, block).contains(o) ==> o == c || !dominator_set(g, o).contains(c)
}

/// Whether `c` is the least candidate.
pub open spec fn is_least_candidate(g: SpecCfg, block: BlockId, c: BlockId) -> bool {
    &&& is_idom_candidate(g, block, c)
    &&& forall|c2: BlockId| #[trigger] is_idom_candidate(g, block, c2) ==> c <= c2
}

/// The immediate dominator of a reachable block other than the entry: its least candidate.
#[verifier::opaque]
pub open spec fn idom_spec(g: SpecCfg, block: BlockId) -> Option<BlockId> {
    if reachable_spec(g, block) && block != g.entry && exists|c: BlockId| #[trigger] is_least_candidate(g, block, c) {
        Some(choose|c: BlockId| #[trigger] is_least_candidate(g, block, c))
    } else {
        None
    }
}

/// The immediate dominators of the reachable blocks other than the entry: of the strict
/// dominators that dominate no other strict dominator, the least.
fn compute_immediate_dominators(
    cfg: &ControlFlowGraph,
    dominators: &HashMap<BlockId, BTreeSet<BlockId>>,
    order: &Vec<BlockId>,
) -> (immediate: HashMap<BlockId, BlockId>)
    requires
        order@.no_duplicates(),
        forall|x: BlockId| order@.contains(x) <==> reachable_spec(cfg@, x),
        forall|b: BlockId| #[trigger] dominators@.contains_key(b) <==> reachable_spec(cfg@, b),
        forall|b: BlockId| #[trigger] reachable_spec(cfg@, b) ==> sets_view(dominators@)[b] == dominator_set(cfg@, b),
    ensures
        forall|b: BlockId| #[trigger] immediate@.contains_key(b) <==> idom_spec(cfg@, b) is Some,
        forall|b: BlockId| #[trigger] immediate@.contains_key(b) ==> immediate@[b] == idom_spec(cfg@, b).unwrap(),
{
    let ghost g = cfg@;
    let entry = cfg.entry();
    let mut immediate: HashMap<BlockId, BlockId> = HashMap::new();
    let mut j: usize = 0;
    while j < order.len()
        invariant
            g == cfg@,
            entry == g.entry,
            order@.no_duplicates(),
            forall|x: BlockId| order@.contains(x) <==> reachable_spec(g, x),
            forall|b: BlockId| #[trigger] dominators@.contains_key(b) <==> reachable_spec(g, b),
            forall|b: BlockId| #[trigger] reachable_spec(g, b) ==> sets_view(dominators@)[b] == dominator_set(g, b),
            0 <= j <= order.len(),
            forall|b: BlockId| #[trigger] immediate@.contains_key(b) <==> (order@.subrange(0, j as int).contains(b)
                && idom_spec(g, b) is Some),
            forall|b: BlockId| #[trigger] immediate@.contains_key(b) ==> immediate@[b] == idom_spec(g, b).unwrap(),
        decreases order.len() - j,
    {
        let block = order[j];
        proof {
            assert(order@.contains(block));
        }
        match immediate_dominator_of(cfg, dominators, order, block) {
            Some(c) => {
                immediate.insert(block, c);
            },
            None => {},
        }
        proof {
            let next = order@.subrange(0, j + 1);
            let prev = order@.subrange(0, j as int);
            assert(next[j as int] == block);
            assert forall|b: BlockId| #[trigger] immediate@.contains_key(b) <==> (next.contains(b) && idom_spec(g, b) is Some) by {
                if next.contains(b) {
                    let i = choose|i: int| 0 <= i < next.len() && next[i] == b;
                    if i < j {
                        assert(prev[i] == b);
                    }
                }
                if prev.contains(b) {
                    let i = choose|i: int| 0 <= i < prev.len() && prev[i] == b;
                    assert(next[i] == b);
                }
            }
        }
        j = j + 1;
    }
    proof {
        reveal(idom_spec);
        assert(order@.subrange(0, order@.len() as int) =~= order@);
    }
    immediate
}

/// The immediate dominator of one reachable block.
#[verifier::rlimit(40)]
fn immediate_dominator_of(
    cfg: &ControlFlowGraph,
    dominators: &HashMap<BlockId, BTreeSet<BlockId>>,
    order: &Vec<BlockId>,
    block: BlockId,
) -> (immediate: Option<BlockId>)
    requires
        forall|x: BlockId| order@.contains(x) <==> reachable_spec(cfg@, x),
        forall|b: BlockId| #[trigger] dominators@.contains_key(b) <==> reachable_spec(cfg@, b),
        forall|b: BlockId| #[trigger] reachable_spec(cfg@, b) ==> sets_view(dominators@)[b] == dominator_set(cfg@, b),
        reachable_spec(cfg@, block),
    ensures
        immediate == idom_spec(cfg@, block),
{
    let ghost g = cfg@;
    if block == cfg.entry() {
        proof {
            reveal(idom_spec);
        }
        return None;
    }
    let doms = match dominators.get(&block) {
        Some(d) => d,
        None => {
            return None;
        },
    };
    let mut best: Option<BlockId> = None;
    let mut k: usize = 0;
    while k < order.len()
        invariant
            g == cfg@,
            forall|x: BlockId| order@.contains(x) <==> reachable_spec(g, x),
            forall|b: BlockId| #[trigger] dominators@.contains_key(b) <==> reachable_spec(g, b),
            forall|b: BlockId| #[trigger] reachable_spec(g, b) ==> sets_view(dominators@)[b] == dominator_set(g, b),
            reachable_spec(g, block),
            doms@ == dominator_set(g, block),
            0 <= k <= order.len(),
            match best {
                Some(c) => is_idom_candidate(g, block, c) && forall|c2: BlockId|
                    #[trigger] is_idom_candidate(g, block, c2) && order@.subrange(0, k as int).contains(c2) ==> c <= c2,
                None => forall|c2: BlockId|
                    #[trigger] is_idom_candidate(g, block, c2) ==> !order@.subrange(0, k as int).contains(c2),
            },
        decreases order.len() - k,
    {
        let c = order[k];
        let candidate = is_candidate(cfg, dominators, order, doms, block, c);
        if candidate {
            match best {
                Some(current) => {
                    if c < current {
                        best = Some(c);
                    }
                },
                None => {
                    best = Some(c);
                },
            }
        }
        proof {
            let next = order@.subrange(0, k + 1);
            let prev = order@.subrange(0, k as int);
            assert forall|c2: BlockId| next.contains(c2) implies prev.contains(c2) || c2 == c by {
                let i = choose|i: int| 0 <= i < next.len() && next[i] == c2;
                if i < k {
                    assert(prev[i] == c2);
                }
            }
            assert forall|c2: BlockId| prev.contains(c2) implies next.contains(c2) by {
                let i = choose|i: int| 0 <= i < prev.len() && prev[i] == c2;
                assert(next[i] == c2);
            }
            assert(next[k as int] == c);
        }
        k = k + 1;
    }
    proof {
        assert(order@.subrange(0, order@.len() as int) =~= order@);
        assert forall|c2: BlockId| #[trigger] is_idom_candidate(g, block, c2) implies order@.contains(c2) by {
            reveal(is_idom_candidate);
            assert(dominator_set(g, block).contains(c2));
            lemma_dominator_reachable(g, c2, block);
        }
    }
    match best {
        Some(c) => {
            proof {
                reveal(idom_spec);
                assert(is_least_candidate(g, block, c));
                let chosen = idom_spec(g, block).unwrap();
                assert(is_least_candidate(g, block, chosen));
                assert(chosen <= c);
                assert(c <= chosen);
            }
            Some(c)
        },
        None => {
            proof {
                reveal(idom_spec);
            }
            None
        },
    }
}

/// Whether `c` is a candidate immediate dominator of `block`.
fn is_candidate(
    cfg: &ControlFlowGraph,
    dominators: &HashMap<BlockId, BTreeSet<BlockId>>,
    order: &Vec<BlockId>,
    doms: &BTreeSet<BlockId>,
    block: BlockId,
    c: BlockId,
) -> (candidate: bool)
    requires
        forall|x: BlockId| order@.contains(x) <==> reachable_spec(cfg@, x),
        forall|b: BlockId| #[trigger] dominators@.contains_key(b) <==> reachable_spec(cfg@, b),
        forall|b: BlockId| #[trigger] reachable_spec(cfg@, b) ==> sets_view(dominators@)[b] == dominator_set(cfg@, b),
        reachable_spec(cfg@, block),
        doms@ == dominator_set(cfg@, block),
    ensures
        candidate == is_idom_candidate(cfg@, block, c),
{
    reveal(is_idom_candidate);
    let ghost g = cfg@;
    if c == block || !doms.contains(&c) {
        return false;
    }
    let mut k: usize = 0;
    while k < order.len()
        invariant
            g == cfg@,
            forall|x: BlockId| order@.contains(x) <==> reachable_spec(g, x),
            forall|b: BlockId| #[trigger] dominators@.contains_key(b) <==> reachable_spec(g, b),
            forall|b: BlockId| #[trigger] reachable_spec(g, b) ==> sets_view(dominators@)[b] == dominator_set(g, b),
            reachable_spec(g, block),
            doms@ == dominator_set(g, block),
            0 <= k <= order.len(),
            forall|i: int| 0 <= i < k ==> #[trigger] strict_dominators(g, block).contains(order@[i]) ==> order@[i] == c
                || !dominator_set(g, order@[i]).contains(c),
        decreases order.len() - k,
    {
        let o = order[k];
        proof {
            assert(order@.contains(o));
        }
        if o != block && o != c && doms.contains(&o) {
            let other = match dominators.get(&o) {
                Some(d) => d,
                None => {
                    return false;
                },
            };
            if other.contains(&c) {
                proof {
                    reveal(is_idom_candidate);
                    assert(strict_dominators(g, block).contains(o));
                    assert(sets_view(dominators@)[o] == other@);
                }
                return false;
            }
            proof {
                assert(sets_view(dominators@)[o] == other@);
            }
        }
        k = k + 1;
    }
    proof {
        assert forall|o: BlockId| #[trigger] strict_dominators(g, block).contains(o) implies o == c || !dominator_set(
            g,
            o,
        ).contains(c) by {
            lemma_dominator_reachable(g, o, block);
            let i = choose|i: int| 0 <= i < order@.len() && order@[i] == o;
        }
    }
    true
}


/// The blocks a walk up the dominator tree visits from `runner`: it stops on reaching `stop`,
/// after `fuel` steps, or at a block without an immediate dominator (or its own).
pub open spec fn walk_spec(g: SpecCfg, runner: BlockId, stop: BlockId, fuel: nat) -> Set<BlockId>
    decreases fuel,
{
    if fuel == 0 || runner == stop {
        Set::empty()
    } else {
        match idom_spec(g, runner) {
            Some(parent) => if parent == runner {
                set![runner]
            } else {
                walk_spec(g, parent, stop, (fuel - 1) as nat).insert(runner)
            },
            None => set![runner],
        }
    }
}

/// The step bound of a walk: one step per reachable block.
pub open spec fn walk_fuel(g: SpecCfg) -> nat {
    reachable_set(g).len()
}

/// Whether `block` is in the dominance frontier of `x`: it is a join point (two or more
/// reachable predecessors) with an immediate dominator, and a walk from one of its
/// predecessors up to that immediate dominator passes `x`.
pub open spec fn contributes(g: SpecCfg, block: BlockId, x: BlockId) -> bool {
    let preds = reachable_predecessors_spec(g, block);
    &&& preds.len() >= 2
    &&& idom_spec(g, block) is Some
    &&& exists|i: int|
        0 <= i < preds.len() && #[trigger] walk_spec(g, preds[i], idom_spec(g, block).unwrap(), walk_fuel(g)).contains(x)
}

/// The dominance frontier of a reachable block.
pub open spec fn frontier_spec(g: SpecCfg, x: BlockId) -> Set<BlockId> {
    Set::new(|b: BlockId| reachable_spec(g, b) && contributes(g, b, x))
}

/// The parent of a reachable block in the dominator tree is reachable.
proof fn lemma_idom_reachable(g: SpecCfg, b: BlockId)
    requires
        idom_spec(g, b) is Some,
    ensures
        reachable_spec(g, b),
        reachable_spec(g, idom_spec(g, b).unwrap()),
{
    reveal(idom_spec);
    let c = idom_spec(g, b).unwrap();
    assert(is_least_candidate(g, b, c));
    assert(dominator_set(g, b).contains(c)) by {
        reveal(is_idom_candidate);
    }
    lemma_dominator_reachable(g, c, b);
}

/// The blocks a walk up the dominator tree visits.
fn walk(
    cfg: &ControlFlowGraph,
    immediate: &HashMap<BlockId, BlockId>,
    start: BlockId,
    stop: BlockId,
    fuel: usize,
) -> (visited: Vec<BlockId>)
    requires
        forall|b: BlockId| #[trigger] immediate@.contains_key(b) <==> idom_spec(cfg@, b) is Some,
        forall|b: BlockId| #[trigger] immediate@.contains_key(b) ==> immediate@[b] == idom_spec(cfg@, b).unwrap(),
        reachable_spec(cfg@, start),
    ensures
        forall|x: BlockId| #[trigger] visited@.contains(x) <==> walk_spec(cfg@, start, stop, fuel as nat).contains(x),
        forall|x: BlockId| #[trigger] visited@.contains(x) ==> reachable_spec(cfg@, x),
{
    let ghost g = cfg@;
    let mut visited: Vec<BlockId> = Vec::new();
    let mut runner = start;
    let mut left = fuel;
    loop
        invariant
            g == cfg@,
            forall|b: BlockId| #[trigger] immediate@.contains_key(b) <==> idom_spec(g, b) is Some,
            forall|b: BlockId| #[trigger] immediate@.contains_key(b) ==> immediate@[b] == idom_spec(g, b).unwrap(),
            reachable_spec(g, runner),
            forall|x: BlockId| #[trigger] visited@.contains(x) ==> reachable_spec(g, x),
            forall|x: BlockId| walk_spec(g, start, stop, fuel as nat).contains(x) <==> (#[trigger] visited@.contains(x)
                || walk_spec(g, runner, stop, left as nat).contains(x)),
        ensures
            forall|x: BlockId| #[trigger] visited@.contains(x) <==> walk_spec(g, start, stop, fuel as nat).contains(x),
            forall|x: BlockId| #[trigger] visited@.contains(x) ==> reachable_spec(g, x),
        decreases left,
    {
        if left == 0 || runner == stop {
            proof {
                assert(walk_spec(g, runner, stop, left as nat) =~= Set::<BlockId>::empty());
            }
            break;
        }
        let ghost before = visited@;
        visited.push(runner);
        proof {
            assert forall|x: BlockId| #[trigger] visited@.contains(x) <==> (before.contains(x) || x == runner) by {
                if visited@.contains(x) {
                    let k = choose|k: int| 0 <= k < visited@.len() && visited@[k] == x;
                    if k < before.len() {
                        assert(before[k] == x);
                    }
                }
                if before.contains(x) {
                    let k = choose|k: int| 0 <= k < before.len() && before[k] == x;
                    assert(visited@[k] == x);
                }
                if x == runner {
                    assert(visited@[before.len() as int] == x);
                }
            }
        }
        match immediate.get(&runner) {
            None => {
                proof {
                    assert(walk_spec(g, runner, stop, left as nat) =~= set![runner]);
                    assert forall|x: BlockId| #[trigger] visited@.contains(x) <==> walk_spec(g, start, stop, fuel as nat).contains(x) by {
                        if before.contains(x) {
                        }
                    }
                }
                break;
            },
            Some(parent) => {
                if *parent == runner {
                    proof {
                        assert(walk_spec(g, runner, stop, left as nat) =~= set![runner]);
                        assert forall|x: BlockId| #[trigger] visited@.contains(x) <==> walk_spec(g, start, stop, fuel as nat).contains(x) by {
                            if before.contains(x) {
                            }
                        }
                    }
                    break;
                }
                proof {
                    lemma_idom_reachable(g, runner);
                }
                let ghost old_runner = runner;
                let ghost old_left = left;
                runner = *parent;
                left = left - 1;
                proof {
                    assert(walk_spec(g, old_runner, stop, old_left as nat) == walk_spec(g, runner, stop, left as nat).insert(
                        old_runner,
                    ));
                    assert forall|x: BlockId| walk_spec(g, start, stop, fuel as nat).contains(x) <==> (#[trigger] visited@.contains(x)
                        || walk_spec(g, runner, stop, left as nat).contains(x)) by {
                        if before.contains(x) {
                        }
                    }
                }
            },
        }
    }
    visited
}

/// Adds `block` to the frontier of `x`.
fn add_to_frontier(frontiers: &mut HashMap<BlockId, BTreeSet<BlockId>>, x: BlockId, block: BlockId)
    ensures
        forall|z: BlockId| #[trigger] final(frontiers)@.contains_key(z) <==> (old(frontiers)@.contains_key(z) || z == x),
        sets_view(final(frontiers)@) == sets_view(old(frontiers)@).insert(
            x,
            if old(frontiers)@.contains_key(x) {
                sets_view(old(frontiers)@)[x].insert(block)
            } else {
                set![block]
            },
        ),
{
    let mut set = match frontiers.get(&x) {
        Some(existing) => existing.clone(),
        None => BTreeSet::new(),
    };
    set.insert(block);
    frontiers.insert(x, set);
    proof {
        if !old(frontiers)@.contains_key(x) {
            assert(set@ =~= set![block]);
        }
        assert(sets_view(frontiers@) =~= sets_view(old(frontiers)@).insert(
            x,
            if old(frontiers)@.contains_key(x) {
                sets_view(old(frontiers)@)[x].insert(block)
            } else {
                set![block]
            },
        ));
    }
}


/// Whether one of the first `j` blocks of `order` is `y` and is in the frontier of `x`.
pub open spec fn frontier_so_far(g: SpecCfg, order: Seq<BlockId>, j: int, x: BlockId, y: BlockId) -> bool {
    exists|k: int| 0 <= k < j && order[k] == y && #[trigger] contributes(g, order[k], x)
}

/// Whether a walk from one of the first `i` of `preds` up to `stop` passes `x`.
pub open spec fn walked_so_far(g: SpecCfg, preds: Seq<BlockId>, i: int, stop: BlockId, x: BlockId) -> bool {
    exists|k: int| 0 <= k < i && #[trigger] walk_spec(g, preds[k], stop, walk_fuel(g)).contains(x)
}

/// The dominance frontiers of the reachable blocks: each join point with an immediate dominator
/// is in the frontier of every block on the walks from its reachable predecessors up to it.
fn compute_dominance_frontiers(
    cfg: &ControlFlowGraph,
    reachable: &BTreeSet<BlockId>,
    order: &Vec<BlockId>,
    immediate: &HashMap<BlockId, BlockId>,
) -> (frontiers: HashMap<BlockId, BTreeSet<BlockId>>)
    requires
        reachable@ == reachable_set(cfg@),
        order@.no_duplicates(),
        forall|x: BlockId| order@.contains(x) <==> reachable@.contains(x),
        forall|b: BlockId| #[trigger] immediate@.contains_key(b) <==> idom_spec(cfg@, b) is Some,
        forall|b: BlockId| #[trigger] immediate@.contains_key(b) ==> immediate@[b] == idom_spec(cfg@, b).unwrap(),
    ensures
        forall|x: BlockId| #[trigger] frontiers@.contains_key(x) <==> reachable_spec(cfg@, x),
        forall|x: BlockId| #[trigger] reachable_spec(cfg@, x) ==> sets_view(frontiers@)[x] == frontier_spec(cfg@, x),
{
    let ghost g = cfg@;
    proof {
        order@.unique_seq_to_set();
        assert(order@.to_set() =~= reachable_set(g));
    }
    let mut frontiers: HashMap<BlockId, BTreeSet<BlockId>> = HashMap::new();
    let mut j: usize = 0;
    while j < order.len()
        invariant
            0 <= j <= order.len(),
            forall|x: BlockId| #[trigger] frontiers@.contains_key(x) <==> order@.subrange(0, j as int).contains(x),
            forall|x: BlockId| #[trigger] frontiers@.contains_key(x) ==> sets_view(frontiers@)[x] == Set::<BlockId>::empty(),
        decreases order.len() - j,
    {
        frontiers.insert(order[j], BTreeSet::new());
        proof {
            let next = order@.subrange(0, j + 1);
            let prev = order@.subrange(0, j as int);
            assert(next[j as int] == order@[j as int]);
            assert forall|x: BlockId| #[trigger] frontiers@.contains_key(x) <==> next.contains(x) by {
                if next.contains(x) {
                    let k = choose|k: int| 0 <= k < next.len() && next[k] == x;
                    if k < j {
                        assert(prev[k] == x);
                    }
                }
                if prev.contains(x) {
                    let k = choose|k: int| 0 <= k < prev.len() && prev[k] == x;
                    assert(next[k] == x);
                }
            }
        }
        j = j + 1;
    }
    proof {
        assert(order@.subrange(0, order@.len() as int) =~= order@);
    }
    let fuel = order.len();
    let mut j: usize = 0;
    while j < order.len()
        invariant
            g == cfg@,
            reachable@ == reachable_set(g),
            order@.no_duplicates(),
            forall|x: BlockId| order@.contains(x) <==> reachable@.contains(x),
            fuel == order@.len(),
            fuel as nat == walk_fuel(g),
            forall|b: BlockId| #[trigger] immediate@.contains_key(b) <==> idom_spec(g, b) is Some,
            forall|b: BlockId| #[trigger] immediate@.contains_key(b) ==> immediate@[b] == idom_spec(g, b).unwrap(),
            0 <= j <= order.len(),
            forall|x: BlockId| #[trigger] frontiers@.contains_key(x) <==> reachable_spec(g, x),
            forall|x: BlockId, y: BlockId|
                frontiers@.contains_key(x) ==> (#[trigger] sets_view(frontiers@)[x].contains(y) <==> frontier_so_far(
                    g,
                    order@,
                    j as int,
                    x,
                    y,
                )),
        decreases order.len() - j,
    {
        let block = order[j];
        proof {
            assert(order@.contains(block));
            assert(reachable_set(g).contains(block));
        }
        let preds = reachable_predecessors(cfg, reachable, block);
        let stop = if preds.len() >= 2 {
            match immediate.get(&block) {
                Some(stop) => Some(*stop),
                None => None,
            }
        } else {
            None
        };
        let ghost before = sets_view(frontiers@);
        match stop {
            Some(stop) => {
                let mut i: usize = 0;
                while i < preds.len()
                    invariant
                        g == cfg@,
                        reachable@ == reachable_set(g),
                        preds@ == reachable_predecessors_spec(g, block),
                        fuel as nat == walk_fuel(g),
                        forall|b: BlockId| #[trigger] immediate@.contains_key(b) <==> idom_spec(g, b) is Some,
                        forall|b: BlockId| #[trigger] immediate@.contains_key(b) ==> immediate@[b] == idom_spec(g, b).unwrap(),
                        0 <= i <= preds.len(),
                        forall|x: BlockId| #[trigger] frontiers@.contains_key(x) <==> reachable_spec(g, x),
                        forall|x: BlockId| #[trigger] frontiers@.contains_key(x) <==> before.contains_key(x),
                        forall|x: BlockId, y: BlockId|
                            frontiers@.contains_key(x) ==> (#[trigger] sets_view(frontiers@)[x].contains(y) <==> (
                            before[x].contains(y) || (y == block && walked_so_far(g, preds@, i as int, stop, x)))),
                    decreases preds.len() - i,
                {
                    proof {
                        assert(preds@.contains(preds@[i as int]));
                        lemma_reachable_predecessor(g, block, preds@[i as int]);
                    }
                    let visited = walk(cfg, immediate, preds[i], stop, fuel);
                    let ghost at_pred = sets_view(frontiers@);
                    let mut t: usize = 0;
                    while t < visited.len()
                        invariant
                            g == cfg@,
                            forall|x: BlockId| #[trigger] visited@.contains(x) ==> reachable_spec(g, x),
                            0 <= t <= visited.len(),
                            forall|x: BlockId| #[trigger] frontiers@.contains_key(x) <==> reachable_spec(g, x),
                            forall|x: BlockId| #[trigger] frontiers@.contains_key(x) <==> at_pred.contains_key(x),
                            forall|x: BlockId, y: BlockId|
                                frontiers@.contains_key(x) ==> (#[trigger] sets_view(frontiers@)[x].contains(y) <==> (
                                at_pred[x].contains(y) || (y == block && visited@.subrange(0, t as int).contains(x)))),
                        decreases visited.len() - t,
                    {
                        let x = visited[t];
                        proof {
                            assert(visited@.contains(x));
                        }
                        let ghost prior = sets_view(frontiers@);
                        add_to_frontier(&mut frontiers, x, block);
                        proof {
                            let next = visited@.subrange(0, t + 1);
                            let prev = visited@.subrange(0, t as int);
                            assert(next[t as int] == x);
                            assert forall|z: BlockId| next.contains(z) <==> (prev.contains(z) || z == x) by {
                                if next.contains(z) {
                                    let k = choose|k: int| 0 <= k < next.len() && next[k] == z;
                                    if k < t {
                                        assert(prev[k] == z);
                                    }
                                }
                                if prev.contains(z) {
                                    let k = choose|k: int| 0 <= k < prev.len() && prev[k] == z;
                                    assert(next[k] == z);
                                }
                            }
                            assert forall|z: BlockId, y: BlockId|
                                frontiers@.contains_key(z) implies (#[trigger] sets_view(frontiers@)[z].contains(y) <==> (
                                at_pred[z].contains(y) || (y == block && next.contains(z)))) by {
                                assert(prior.contains_key(z));
                                assert(prior[z].contains(y) <==> (at_pred[z].contains(y) || (y == block
                                    && prev.contains(z))));
                                if z == x {
                                    assert(sets_view(frontiers@)[z] == prior[z].insert(block));
                                } else {
                                    assert(sets_view(frontiers@)[z] == prior[z]);
                                }
                            }
                        }
                        t = t + 1;
                    }
                    proof {
                        assert(visited@.subrange(0, visited@.len() as int) =~= visited@);
                        assert forall|x: BlockId, y: BlockId|
                            frontiers@.contains_key(x) implies (#[trigger] sets_view(frontiers@)[x].contains(y) <==> (
                            before[x].contains(y) || (y == block && walked_so_far(g, preds@, i + 1, stop, x)))) by {
                            if walked_so_far(g, preds@, i + 1, stop, x) && !walked_so_far(g, preds@, i as int, stop, x) {
                                let k = choose|k: int| 0 <= k < i + 1 && #[trigger] walk_spec(g, preds@[k], stop, walk_fuel(g)).contains(x);
                                assert(k == i);
                            }
                            if visited@.contains(x) {
                                assert(walk_spec(g, preds@[i as int], stop, walk_fuel(g)).contains(x));
                            }
                        }
                    }
                    i = i + 1;
                }
                proof {
                    assert forall|x: BlockId, y: BlockId|
                        frontiers@.contains_key(x) implies (#[trigger] sets_view(frontiers@)[x].contains(y) <==> frontier_so_far(
                        g,
                        order@,
                        j + 1,
                        x,
                        y,
                    )) by {
                        assert(order@[j as int] == block);
                        if y == block {
                            assert(walked_so_far(g, preds@, preds@.len() as int, stop, x) == contributes(g, block, x));
                            if frontier_so_far(g, order@, j as int, x, y) {
                                let k = choose|k: int| 0 <= k < j && order@[k] == y && #[trigger] contributes(g, order@[k], x);
                                assert(order@[k] == order@[j as int]);
                            }
                        }
                        if frontier_so_far(g, order@, j + 1, x, y) && !frontier_so_far(g, order@, j as int, x, y) {
                            let k = choose|k: int| 0 <= k < j + 1 && order@[k] == y && #[trigger] contributes(g, order@[k], x);
                            assert(k == j);
                        }
                    }
                }
            },
            None => {
                proof {
                    assert forall|x: BlockId, y: BlockId|
                        frontiers@.contains_key(x) implies (#[trigger] sets_view(frontiers@)[x].contains(y) <==> frontier_so_far(
                        g,
                        order@,
                        j + 1,
                        x,
                        y,
                    )) by {
                        assert(order@[j as int] == block);
                        assert(!contributes(g, block, x));
                        if frontier_so_far(g, order@, j + 1, x, y) && !frontier_so_far(g, order@, j as int, x, y) {
                            let k = choose|k: int| 0 <= k < j + 1 && order@[k] == y && #[trigger] contributes(g, order@[k], x);
                            assert(k == j);
                        }
                    }
                }
            },
        }
        j = j + 1;
    }
    proof {
        assert forall|x: BlockId| #[trigger] reachable_spec(g, x) implies sets_view(frontiers@)[x] == frontier_spec(g, x) by {
            assert(reachable_set(g).contains(x));
            assert forall|y: BlockId| sets_view(frontiers@)[x].contains(y) <==> frontier_spec(g, x).contains(y) by {
                if frontier_spec(g, x).contains(y) {
                    assert(reachable_set(g).contains(y));
                    assert(order@.contains(y));
                    let k = choose|k: int| 0 <= k < order@.len() && order@[k] == y;
                    assert(contributes(g, order@[k], x));
                }
                if frontier_so_far(g, order@, order@.len() as int, x, y) {
                    let k = choose|k: int| 0 <= k < order@.len() && order@[k] == y && #[trigger] contributes(g, order@[k], x);
                    assert(order@.contains(y));
                    assert(reachable_set(g).contains(y));
                }
            }
            assert(sets_view(frontiers@)[x] =~= frontier_spec(g, x));
        }
    }
    frontiers
}


/// Whether the ids are in strictly increasing order.
pub open spec fn strictly_sorted(ids: Seq<BlockId>) -> bool {
    forall|i: int, j: int| 0 <= i < j < ids.len() ==> ids[i] < ids[j]
}

/// Inserts a new id into a strictly increasing list, keeping it so.
fn insert_sorted(ids: &mut Vec<BlockId>, x: BlockId)
    requires
        strictly_sorted(old(ids)@),
        !old(ids)@.contains(x),
    ensures
        strictly_sorted(final(ids)@),
        forall|y: BlockId| #[trigger] final(ids)@.contains(y) <==> (old(ids)@.contains(y) || y == x),
{
    let mut i: usize = 0;
    while i < ids.len() && ids[i] < x
        invariant
            0 <= i <= ids@.len(),
            ids@ == old(ids)@,
            forall|k: int| 0 <= k < i ==> ids@[k] < x,
        decreases ids.len() - i,
    {
        i = i + 1;
    }
    let ghost before = ids@;
    ids.insert(i, x);
    proof {
        assert(i < before.len() ==> before[i as int] != x && !(before[i as int] < x));
        assert forall|a: int, b: int| 0 <= a < b < ids@.len() implies ids@[a] < ids@[b] by {
            if b < i {
                assert(ids@[a] == before[a] && ids@[b] == before[b]);
            } else if b == i {
                assert(ids@[b] == x && ids@[a] == before[a]);
            } else if a < i {
                assert(ids@[a] == before[a] && ids@[b] == before[b - 1]);
                assert(before[i as int] > x);
                if b - 1 > i {
                    assert(before[i as int] < before[b - 1]);
                }
            } else if a == i {
                assert(ids@[a] == x && ids@[b] == before[b - 1]);
                if b - 1 > i {
                    assert(before[i as int] < before[b - 1]);
                }
            } else {
                assert(ids@[a] == before[a - 1] && ids@[b] == before[b - 1]);
            }
        }
        assert forall|y: BlockId| #[trigger] ids@.contains(y) <==> (before.contains(y) || y == x) by {
            if ids@.contains(y) {
                let k = choose|k: int| 0 <= k < ids@.len() && ids@[k] == y;
                if k < i {
                    assert(before[k] == y);
                } else if k > i {
                    assert(before[k - 1] == y);
                }
            }
            if before.contains(y) {
                let k = choose|k: int| 0 <= k < before.len() && before[k] == y;
                if k < i {
                    assert(ids@[k] == y);
                } else {
                    assert(ids@[k + 1] == y);
                }
            }
            if y == x {
                assert(ids@[i as int] == x);
            }
        }
    }
}

/// The ids of a list without repetitions, in increasing order.
fn sorted_ids(ids: &Vec<BlockId>) -> (sorted: Vec<BlockId>)
    requires
        ids@.no_duplicates(),
    ensures
        strictly_sorted(sorted@),
        sorted@.no_duplicates(),
        forall|y: BlockId| #[trigger] sorted@.contains(y) <==> ids@.contains(y),
{
    let mut sorted: Vec<BlockId> = Vec::new();
    let mut k: usize = 0;
    while k < ids.len()
        invariant
            ids@.no_duplicates(),
            0 <= k <= ids@.len(),
            strictly_sorted(sorted@),
            forall|y: BlockId| #[trigger] sorted@.contains(y) <==> ids@.subrange(0, k as int).contains(y),
        decreases ids.len() - k,
    {
        let x = ids[k];
        proof {
            if sorted@.contains(x) {
                let i = choose|i: int| 0 <= i < k && ids@.subrange(0, k as int)[i] == x;
                assert(ids@[i] == ids@[k as int]);
            }
        }
        insert_sorted(&mut sorted, x);
        proof {
            let prev = ids@.subrange(0, k as int);
            let next = ids@.subrange(0, k + 1);
            assert(next =~= prev.push(x));
            assert forall|y: BlockId| #[trigger] sorted@.contains(y) <==> next.contains(y) by {
                if prev.contains(y) {
                    let i = choose|i: int| 0 <= i < prev.len() && prev[i] == y;
                    assert(next[i] == y);
                }
                if next.contains(y) {
                    let i = choose|i: int| 0 <= i < next.len() && next[i] == y;
                    if i < prev.len() {
                        assert(prev[i] == y);
                    }
                }
                if y == x {
                    assert(next[prev.len() as int] == x);
                }
            }
        }
        k = k + 1;
    }
    proof {
        assert(ids@.subrange(0, ids@.len() as int) =~= ids@);
        assert forall|i: int, j: int| 0 <= i < sorted@.len() && 0 <= j < sorted@.len() && i != j implies sorted@[i]
            != sorted@[j] by {
            if i < j {
                assert(sorted@[i] < sorted@[j]);
            } else {
                assert(sorted@[j] < sorted@[i]);
            }
        }
    }
    sorted
}

/// Dominance facts about the reachable blocks of a control-flow graph: dominator sets,
/// immediate dominators and dominance frontiers.
#[derive(Debug, PartialEq, Eq)]
pub struct DominanceInfo {
    dominators: HashMap<BlockId, BTreeSet<BlockId>>,
    immediate_dominators: HashMap<BlockId, BlockId>,
    dominance_frontiers: HashMap<BlockId, BTreeSet<BlockId>>,
    blocks: Vec<BlockId>,
}

impl Clone for DominanceInfo {
    fn clone(&self) -> (copy: Self)
        ensures
            copy.dominator_map() == self.dominator_map(),
            copy.idom_map() == self.idom_map(),
            copy.frontier_map() == self.frontier_map(),
    {
        proof {
            use_type_invariant(self);
        }
        let blocks = self.blocks.clone();
        proof {
            assert(blocks@ =~= self.blocks@);
        }
        DominanceInfo {
            dominators: self.dominators.clone(),
            immediate_dominators: self.immediate_dominators.clone(),
            dominance_frontiers: self.dominance_frontiers.clone(),
            blocks,
        }
    }
}

impl DominanceInfo {
    /// The dominator set of each reachable block.
    pub closed spec fn dominator_map(self) -> Map<BlockId, Set<BlockId>> {
        sets_view(self.dominators@)
    }

    /// The immediate dominator of each block that has one.
    pub closed spec fn idom_map(self) -> Map<BlockId, BlockId> {
        self.immediate_dominators@
    }

    /// The dominance frontier of each reachable block.
    pub closed spec fn frontier_map(self) -> Map<BlockId, Set<BlockId>> {
        sets_view(self.dominance_frontiers@)
    }

    #[verifier::type_invariant]
    closed spec fn wf(self) -> bool {
        &&& strictly_sorted(self.blocks@)
        &&& self.blocks@.no_duplicates()
        &&& forall|c: BlockId| #[trigger] self.immediate_dominators@.contains_key(c) ==> self.blocks@.contains(c)
    }

    /// Computes the dominance facts of the blocks reachable from the entry. A block dominates
    /// another when every walk from the entry to the other passes through it; the immediate
    /// dominator of a block is, of its other dominators, the least that dominates none of the
    /// rest; and a join point with an immediate dominator is in the frontier of the blocks on the
    /// walks up the dominator tree from its reachable predecessors to that immediate dominator.
    pub fn compute(cfg: &ControlFlowGraph) -> (info: Self)
        ensures
            forall|b: BlockId| #[trigger] info.dominator_map().contains_key(b) <==> reachable_spec(cfg@, b),
            forall|b: BlockId| #[trigger] reachable_spec(cfg@, b) ==> info.dominator_map()[b] == dominator_set(cfg@, b),
            forall|b: BlockId| #[trigger] info.idom_map().contains_key(b) <==> idom_spec(cfg@, b) is Some,
            forall|b: BlockId| #[trigger] info.idom_map().contains_key(b) ==> info.idom_map()[b] == idom_spec(cfg@, b).unwrap(),
            forall|x: BlockId| #[trigger] info.frontier_map().contains_key(x) <==> reachable_spec(cfg@, x),
            forall|x: BlockId| #[trigger] reachable_spec(cfg@, x) ==> info.frontier_map()[x] == frontier_spec(cfg@, x),
    {
        let (reachable, order) = cfg.reachable_order();
        proof {
            assert forall|x: BlockId| order@.contains(x) <==> reachable_spec(cfg@, x) by {
                assert(reachable_set(cfg@).contains(x) <==> reachable_spec(cfg@, x));
            }
        }
        let dominators = compute_dominators(cfg, &reachable, &order);
        let immediate_dominators = compute_immediate_dominators(cfg, &dominators, &order);
        let dominance_frontiers = compute_dominance_frontiers(cfg, &reachable, &order, &immediate_dominators);
        proof {
            assert forall|c: BlockId| #[trigger] immediate_dominators@.contains_key(c) implies order@.contains(c) by {
                lemma_idom_reachable(cfg@, c);
            }
        }
        let blocks = sorted_ids(&order);
        DominanceInfo { dominators, immediate_dominators, dominance_frontiers, blocks }
    }

    /// Whether `dominator` dominates `block`.
    pub fn dominates(&self, dominator: BlockId, block: BlockId) -> (dominates: bool)
        ensures
            dominates == (self.dominator_map().contains_key(block) && self.dominator_map()[block].contains(dominator)),
    {
        match self.dominators.get(&block) {
            Some(set) => set.contains(&dominator),
            None => false,
        }
    }

    /// The dominator set of `block`, if it is reachable.
    pub fn dominators(&self, block: BlockId) -> (dominators: Option<&BTreeSet<BlockId>>)
        ensures
            match dominators {
                Some(set) => self.dominator_map().contains_key(block) && set@ == self.dominator_map()[block],
                None => !self.dominator_map().contains_key(block),
            },
    {
        self.dominators.get(&block)
    }

    /// The immediate dominator of `block`, if it has one.
    pub fn immediate_dominator(&self, block: BlockId) -> (immediate: Option<BlockId>)
        ensures
            match immediate {
                Some(d) => self.idom_map().contains_key(block) && d == self.idom_map()[block],
                None => !self.idom_map().contains_key(block),
            },
    {
        match self.immediate_dominators.get(&block) {
            Some(d) => Some(*d),
            None => None,
        }
    }

    /// The dominance frontier of `block`, if it is reachable.
    pub fn dominance_frontier(&self, block: BlockId) -> (frontier: Option<&BTreeSet<BlockId>>)
        ensures
            match frontier {
                Some(set) => self.frontier_map().contains_key(block) && set@ == self.frontier_map()[block],
                None => !self.frontier_map().contains_key(block),
            },
    {
        self.dominance_frontiers.get(&block)
    }

    /// The children of `block` in the dominator tree (the blocks it immediately dominates), in
    /// increasing order.
    pub fn dominator_tree_children(&self, block: BlockId) -> (children: Vec<BlockId>)
        ensures
            strictly_sorted(children@),
            forall|c: BlockId| #[trigger] children@.contains(c) <==> (self.idom_map().contains_key(c)
                && self.idom_map()[c] == block),
    {
        proof {
            use_type_invariant(self);
        }
        let mut children: Vec<BlockId> = Vec::new();
        let mut k: usize = 0;
        while k < self.blocks.len()
            invariant
                self.blocks@.no_duplicates(),
                0 <= k <= self.blocks.len(),
                strictly_sorted(children@),
                forall|c: BlockId| #[trigger] children@.contains(c) <==> (self.blocks@.subrange(0, k as int).contains(c)
                    && self.immediate_dominators@.contains_key(c) && self.immediate_dominators@[c] == block),
            decreases self.blocks.len() - k,
        {
            let c = self.blocks[k];
            let ghost next = self.blocks@.subrange(0, k + 1);
            let ghost prev = self.blocks@.subrange(0, k as int);
            proof {
                assert(next[k as int] == c);
                assert forall|z: BlockId| next.contains(z) <==> (prev.contains(z) || z == c) by {
                    if next.contains(z) {
                        let i = choose|i: int| 0 <= i < next.len() && next[i] == z;
                        if i < k {
                            assert(prev[i] == z);
                        }
                    }
                    if prev.contains(z) {
                        let i = choose|i: int| 0 <= i < prev.len() && prev[i] == z;
                        assert(next[i] == z);
                    }
                }
                if prev.contains(c) {
                    let i = choose|i: int| 0 <= i < prev.len() && prev[i] == c;
                    assert(self.blocks@[i] == self.blocks@[k as int]);
                }
            }
            match self.immediate_dominators.get(&c) {
                Some(parent) => {
                    if *parent == block {
                        insert_sorted(&mut children, c);
                    }
                },
                None => {},
            }
            k = k + 1;
        }
        proof {
            assert(self.blocks@.subrange(0, self.blocks@.len() as int) =~= self.blocks@);
        }
        children
    }
}


/// The entry dominates every reachable block, and every reachable block dominates itself.
pub proof fn lemma_entry_and_self_dominate(g: SpecCfg, block: BlockId)
    requires
        reachable_spec(g, block),
    ensures
        dominator_set(g, block).contains(g.entry),
        dominator_set(g, block).contains(block),
{
    reveal(dominates_spec);
    assert forall|path: Seq<BlockId>| #[trigger] is_entry_path(g, path) && path.last() == block implies path.contains(
        g.entry,
    ) && path.contains(block) by {
        assert(path[0] == g.entry);
        assert(path[path.len() - 1] == block);
    }
}

/// The immediate dominator of a block strictly dominates it, and so does every block on the way
/// up from it.
pub proof fn lemma_immediate_dominator_strict(g: SpecCfg, block: BlockId)
    requires
        idom_spec(g, block) is Some,
    ensures
        dominator_set(g, idom_spec(g, block).unwrap()).subset_of(dominator_set(g, block)),
        dominator_set(g, block).contains(idom_spec(g, block).unwrap()),
        idom_spec(g, block).unwrap() != block,
        reachable_spec(g, block),
        block != g.entry,
{
    reveal(idom_spec);
    let c = idom_spec(g, block).unwrap();
    assert(is_least_candidate(g, block, c));
    assert(strict_dominators(g, block).contains(c)) by {
        reveal(is_idom_candidate);
    }
    lemma_dominator_transitive(g, c, block);
}

/// A block dominated by `c` is dominated by every dominator of `c`.
pub proof fn lemma_dominator_transitive(g: SpecCfg, c: BlockId, block: BlockId)
    requires
        dominator_set(g, block).contains(c),
    ensures
        dominator_set(g, c).subset_of(dominator_set(g, block)),
{
    reveal(dominates_spec);
    assert forall|d: BlockId| dominator_set(g, c).contains(d) implies dominator_set(g, block).contains(d) by {
        assert forall|path: Seq<BlockId>| #[trigger] is_entry_path(g, path) && path.last() == block implies path.contains(
            d,
        ) by {
            assert(path.contains(c));
            let k = choose|k: int| 0 <= k < path.len() && path[k] == c;
            lemma_path_prefix(g, path, k);
            let prefix = path.subrange(0, k + 1);
            assert(prefix.contains(d));
            let i = choose|i: int| 0 <= i < prefix.len() && prefix[i] == d;
            assert(path[i] == d);
        }
    }
}

/// Walking `q` to the block at position `k` of `path`, then on along `path`, is a walk from the
/// entry to the end of `path` that passes only blocks of `q` and blocks after position `k`.
proof fn lemma_bypass(g: SpecCfg, q: Seq<BlockId>, path: Seq<BlockId>, k: int)
    requires
        is_entry_path(g, q),
        is_entry_path(g, path),
        0 <= k < path.len() - 1,
        q.last() == path[k],
    ensures
        is_entry_path(g, q + path.subrange(k + 1, path.len() as int)),
        (q + path.subrange(k + 1, path.len() as int)).last() == path.last(),
        forall|x: BlockId|
            (q + path.subrange(k + 1, path.len() as int)).contains(x) ==> q.contains(x) || exists|j: int|
                k < j < path.len() && path[j] == x,
{
    let rest = path.subrange(k + 1, path.len() as int);
    let r = q + rest;
    assert forall|i: int| 0 <= i < r.len() - 1 implies #[trigger] successors_spec(g, r[i]).contains(r[i + 1]) by {
        if i < q.len() - 1 {
            assert(r[i] == q[i] && r[i + 1] == q[i + 1]);
            assert(successors_spec(g, q[i]).contains(q[i + 1]));
        } else if i == q.len() - 1 {
            assert(r[i] == q[i]);
            assert(r[i] == path[k] && r[i + 1] == path[k + 1]);
            assert(successors_spec(g, path[k]).contains(path[k + 1]));
        } else {
            let m = k + 1 + (i - q.len());
            assert(r[i] == path[m] && r[i + 1] == path[m + 1]);
            assert(successors_spec(g, path[m]).contains(path[m + 1]));
        }
    }
    assert(r[0] == q[0]);
    assert(r.last() == path.last());
    assert forall|x: BlockId| r.contains(x) implies q.contains(x) || exists|j: int| k < j < path.len() && path[j] == x by {
        let i = choose|i: int| 0 <= i < r.len() && r[i] == x;
        if i < q.len() {
            assert(q[i] == x);
        } else {
            assert(path[k + 1 + (i - q.len())] == x);
        }
    }
}

/// The first position of `x` in `s`, found among the first `n`.
proof fn lemma_first_position(s: Seq<BlockId>, x: BlockId, n: int) -> (i: int)
    requires
        0 <= n <= s.len(),
        exists|j: int| 0 <= j < n && s[j] == x,
    ensures
        0 <= i < n,
        s[i] == x,
        forall|j: int| 0 <= j < i ==> s[j] != x,
    decreases n,
{
    if exists|j: int| 0 <= j < n - 1 && s[j] == x {
        lemma_first_position(s, x, n - 1)
    } else {
        n - 1
    }
}

/// The last position before `n` whose block is in `s`, given that the first block is.
proof fn lemma_last_position_in(path: Seq<BlockId>, s: Set<BlockId>, n: int) -> (k: int)
    requires
        0 < n <= path.len(),
        s.contains(path[0]),
    ensures
        0 <= k < n,
        s.contains(path[k]),
        forall|j: int| k < j < n ==> !s.contains(path[j]),
    decreases n,
{
    if s.contains(path[n - 1]) {
        n - 1
    } else {
        lemma_last_position_in(path, s, n - 1)
    }
}

/// Two reachable blocks that dominate each other are the same block.
proof fn lemma_dominance_antisymmetric(g: SpecCfg, a: BlockId, b: BlockId)
    requires
        reachable_spec(g, a),
        dominates_spec(g, a, b),
        dominates_spec(g, b, a),
    ensures
        a == b,
{
    reveal(dominates_spec);
    let path = choose|path: Seq<BlockId>| is_entry_path(g, path) && path.last() == a;
    assert(path[path.len() - 1] == a);
    let i = lemma_first_position(path, a, path.len() as int);
    lemma_path_prefix(g, path, i);
    let to_a = path.subrange(0, i + 1);
    if a != b {
        assert(to_a.contains(b));
        let j = choose|j: int| 0 <= j < to_a.len() && to_a[j] == b;
        assert(path[j] == b);
        assert(j < i);
        lemma_path_prefix(g, path, j);
        let to_b = path.subrange(0, j + 1);
        assert(to_b.contains(a));
        let l = choose|l: int| 0 <= l < to_b.len() && to_b[l] == a;
        assert(path[l] == a);
        assert(false);
    }
}

/// Every strict dominator of a reachable block other than the entry dominates its immediate
/// dominator: the immediate dominator is the closest strict dominator.
pub proof fn lemma_strict_dominators_dominate_idom(g: SpecCfg, block: BlockId)
    requires
        reachable_spec(g, block),
        block != g.entry,
    ensures
        idom_spec(g, block) is Some,
        strict_dominators(g, block).contains(idom_spec(g, block).unwrap()),
        forall|j: BlockId| #[trigger] strict_dominators(g, block).contains(j) ==> dominator_set(
            g,
            idom_spec(g, block).unwrap(),
        ).contains(j),
{
    lemma_dominators_of_idom(g, block);
    lemma_immediate_dominator_strict(g, block);
    let c = idom_spec(g, block).unwrap();
    assert forall|j: BlockId| #[trigger] strict_dominators(g, block).contains(j) implies dominator_set(g, c).contains(j) by {
        assert(dominator_set(g, block).contains(j) && j != block);
        assert(dominator_set(g, c).insert(block).contains(j));
    }
}

/// Every reachable block other than the entry has an immediate dominator, and it is the only
/// strict dominator of the block that dominates none of the block's other strict dominators.
pub proof fn lemma_immediate_dominator_exists(g: SpecCfg, block: BlockId)
    requires
        reachable_spec(g, block),
        block != g.entry,
    ensures
        idom_spec(g, block) is Some,
        forall|c: BlockId| #[trigger] is_idom_candidate(g, block, c) <==> c == idom_spec(g, block).unwrap(),
{
    let path = choose|path: Seq<BlockId>| is_entry_path(g, path) && path.last() == block;
    let n = path.len() as int;
    let strict = strict_dominators(g, block);
    lemma_entry_and_self_dominate(g, block);
    assert(path[0] == g.entry);
    assert(path[n - 1] == block);
    assert(n >= 2);
    assert(strict.contains(path[0]));
    let k = lemma_last_position_in(path, strict, n - 1);
    let c = path[k];
    lemma_path_prefix(g, path, k);
    // No strict dominator of `block` other than `c` lies on `path` after `c`'s position.
    assert forall|o: BlockId, j: int| strict.contains(o) && k < j < n && path[j] == o implies false by {
        if j == n - 1 {
            assert(path[j] == block);
        }
    }
    // Any strict dominator that `c` does not reach around on the way to `block` is `c`.
    assert forall|o: BlockId| strict.contains(o) && !dominates_spec(g, o, c) implies o == c by {
        reveal(dominates_spec);
        let q = choose|q: Seq<BlockId>| is_entry_path(g, q) && q.last() == c && !q.contains(o);
        lemma_bypass(g, q, path, k);
        let r = q + path.subrange(k + 1, n);
        assert(dominates_spec(g, o, block));
        assert(r.contains(o));
        if !q.contains(o) {
            let j = choose|j: int| k < j < path.len() && path[j] == o;
            assert(false);
        }
    }
    assert(is_idom_candidate(g, block, c)) by {
        reveal(is_idom_candidate);
        assert forall|o: BlockId| #[trigger] strict.contains(o) implies o == c || !dominator_set(g, o).contains(c) by {
            if o != c && dominator_set(g, o).contains(c) {
                if dominates_spec(g, o, c) {
                    lemma_dominance_antisymmetric(g, c, o);
                }
            }
        }
    }
    assert forall|c2: BlockId| #[trigger] is_idom_candidate(g, block, c2) implies c2 == c by {
        reveal(is_idom_candidate);
        if c2 != c {
            assert(strict.contains(c));
            assert(!dominator_set(g, c).contains(c2));
        }
    }
    assert(is_least_candidate(g, block, c));
    reveal(idom_spec);
    assert(idom_spec(g, block) == Some(c));
}

/// The reachable blocks are finitely many.
proof fn lemma_reachable_finite(g: SpecCfg)
    ensures
        reachable_set(g).finite(),
{
    let all = seq![g.entry] + all_targets(g.blocks);
    assert forall|x: BlockId| reachable_set(g).contains(x) implies id_universe(g).contains(x) by {
        let path = choose|path: Seq<BlockId>| is_entry_path(g, path) && path.last() == x;
        if path.len() == 1 {
            assert(path[0] == g.entry);
            assert(all[0] == g.entry);
        } else {
            let n = path.len() - 1;
            assert(successors_spec(g, path[n - 1]).contains(path[n - 1 + 1]));
            lemma_successor_in_universe(g, path[n - 1], x);
        }
    }
    vstd::seq_lib::seq_to_set_is_finite(all);
    vstd::set_lib::lemma_len_subset(reachable_set(g), id_universe(g));
}

/// The last position of `x` in `s`.
proof fn lemma_last_position(s: Seq<BlockId>, x: BlockId) -> (k: int)
    requires
        s.contains(x),
    ensures
        0 <= k < s.len(),
        s[k] == x,
        forall|j: int| k < j < s.len() ==> s[j] != x,
    decreases s.len(),
{
    if s.last() == x {
        (s.len() - 1) as int
    } else {
        let j = choose|j: int| 0 <= j < s.len() && s[j] == x;
        assert(s.drop_last()[j] == x);
        let k = lemma_last_position(s.drop_last(), x);
        assert(s[k] == s.drop_last()[k]);
        assert forall|j: int| k < j < s.len() implies s[j] != x by {
            if j < s.len() - 1 {
                assert(s[j] == s.drop_last()[j]);
            }
        }
        k
    }
}

/// Of two dominators of a block, the one last seen earlier on a walk to the block dominates the
/// other.
proof fn lemma_dominators_chain_half(g: SpecCfg, path: Seq<BlockId>, a: BlockId, ia: int, b: BlockId, ib: int)
    requires
        is_entry_path(g, path),
        0 <= ia <= ib < path.len(),
        path[ia] == a,
        path[ib] == b,
        forall|j: int| ia < j < path.len() ==> path[j] != a,
        dominates_spec(g, a, path.last()),
    ensures
        dominates_spec(g, a, b),
{
    reveal(dominates_spec);
    if ia == ib {
        assert forall|q: Seq<BlockId>| #[trigger] is_entry_path(g, q) && q.last() == b implies q.contains(a) by {
            assert(q[q.len() - 1] == b);
        }
    } else if ib == path.len() - 1 {
    } else {
        assert forall|q: Seq<BlockId>| #[trigger] is_entry_path(g, q) && q.last() == b implies q.contains(a) by {
            lemma_bypass(g, q, path, ib);
            let r = q + path.subrange(ib + 1, path.len() as int);
            assert(r.contains(a));
            if !q.contains(a) {
                let j = choose|j: int| ib < j < path.len() && path[j] == a;
                assert(false);
            }
        }
    }
}

/// The dominators of a reachable block are ordered by dominance.
proof fn lemma_dominators_chain(g: SpecCfg, y: BlockId, d1: BlockId, d2: BlockId)
    requires
        reachable_spec(g, y),
        dominates_spec(g, d1, y),
        dominates_spec(g, d2, y),
    ensures
        dominates_spec(g, d1, d2) || dominates_spec(g, d2, d1),
{
    let path = choose|path: Seq<BlockId>| is_entry_path(g, path) && path.last() == y;
    assert(path.contains(d1) && path.contains(d2)) by {
        reveal(dominates_spec);
    }
    let i1 = lemma_last_position(path, d1);
    let i2 = lemma_last_position(path, d2);
    if i1 <= i2 {
        lemma_dominators_chain_half(g, path, d1, i1, d2, i2);
    } else {
        lemma_dominators_chain_half(g, path, d2, i2, d1, i1);
    }
}

/// The dominators of a reachable block other than the entry are the block and the dominators of
/// its immediate dominator, which the block is not among.
proof fn lemma_dominators_of_idom(g: SpecCfg, y: BlockId)
    requires
        reachable_spec(g, y),
        y != g.entry,
    ensures
        idom_spec(g, y) is Some,
        dominator_set(g, y) == dominator_set(g, idom_spec(g, y).unwrap()).insert(y),
        !dominator_set(g, idom_spec(g, y).unwrap()).contains(y),
{
    lemma_immediate_dominator_exists(g, y);
    lemma_immediate_dominator_strict(g, y);
    let c = idom_spec(g, y).unwrap();
    lemma_entry_and_self_dominate(g, y);
    lemma_dominator_reachable(g, c, y);
    lemma_entry_and_self_dominate(g, c);
    assert(is_idom_candidate(g, y, c));
    assert forall|d: BlockId| dominator_set(g, y).contains(d) && d != y implies dominator_set(g, c).contains(d) by {
        if d != c {
            lemma_dominators_chain(g, y, d, c);
            if dominates_spec(g, c, d) {
                reveal(is_idom_candidate);
                assert(strict_dominators(g, y).contains(d));
                assert(dominator_set(g, d).contains(c));
            }
        }
    }
    assert(dominator_set(g, y) =~= dominator_set(g, c).insert(y));
    if dominator_set(g, c).contains(y) {
        lemma_dominance_antisymmetric(g, c, y);
    }
}

/// Walking up the dominator tree from a reachable block `r` to one of its dominators `stop`,
/// with at least as many steps as `r` has dominators, visits the dominators of `r` that do not
/// dominate `stop`.
proof fn lemma_walk_dominators(g: SpecCfg, r: BlockId, stop: BlockId, fuel: nat)
    requires
        reachable_spec(g, r),
        dominates_spec(g, stop, r),
        dominator_set(g, r).finite(),
        dominator_set(g, r).len() <= fuel,
    ensures
        walk_spec(g, r, stop, fuel) == dominator_set(g, r).difference(dominator_set(g, stop)),
    decreases fuel,
{
    lemma_entry_and_self_dominate(g, r);
    lemma_dominator_reachable(g, stop, r);
    lemma_entry_and_self_dominate(g, stop);
    if r == stop {
        assert(dominator_set(g, r).difference(dominator_set(g, stop)) =~= Set::empty());
    } else {
        assert(dominator_set(g, r).contains(stop));
        if r == g.entry {
            lemma_entry_dominators(g);
            assert(set![g.entry].contains(stop));
        }
        lemma_dominators_of_idom(g, r);
        lemma_immediate_dominator_strict(g, r);
        let c = idom_spec(g, r).unwrap();
        lemma_dominator_reachable(g, c, r);
        assert(dominator_set(g, c).contains(stop));
        assert(dominator_set(g, r).len() == dominator_set(g, c).len() + 1);
        assert(fuel > 0);
        lemma_walk_dominators(g, c, stop, (fuel - 1) as nat);
        assert(walk_spec(g, r, stop, fuel) == walk_spec(g, c, stop, (fuel - 1) as nat).insert(r));
        if dominator_set(g, stop).contains(r) {
            lemma_dominance_antisymmetric(g, r, stop);
        }
        assert(walk_spec(g, r, stop, fuel) =~= dominator_set(g, r).difference(dominator_set(g, stop)));
    }
}

/// The dominance frontier of a block `x` holds exactly the reachable join points other than the
/// entry (blocks with two or more reachable predecessors) for which `x` dominates one of the
/// reachable predecessors and does not strictly dominate the join point itself.
pub proof fn lemma_frontier_characterization(g: SpecCfg, x: BlockId, block: BlockId)
    ensures
        frontier_spec(g, x).contains(block) <==> {
            &&& reachable_spec(g, block)
            &&& block != g.entry
            &&& reachable_predecessors_spec(g, block).len() >= 2
            &&& exists|i: int|
                0 <= i < reachable_predecessors_spec(g, block).len() && #[trigger] dominates_spec(
                    g,
                    x,
                    reachable_predecessors_spec(g, block)[i],
                )
            &&& !strict_dominators(g, block).contains(x)
        },
{
    let preds = reachable_predecessors_spec(g, block);
    if reachable_spec(g, block) && block != g.entry {
        lemma_dominators_of_idom(g, block);
        lemma_immediate_dominator_strict(g, block);
        let c = idom_spec(g, block).unwrap();
        assert(dominator_set(g, c) =~= strict_dominators(g, block));
        lemma_reachable_finite(g);
        assert forall|i: int| 0 <= i < preds.len() implies #[trigger] walk_spec(g, preds[i], c, walk_fuel(g))
            == dominator_set(g, preds[i]).difference(dominator_set(g, c)) by {
            let p = preds[i];
            assert(preds.contains(p));
            lemma_reachable_predecessor(g, block, p);
            lemma_dominator_of_predecessor(g, c, block, p);
            assert forall|d: BlockId| dominator_set(g, p).contains(d) implies reachable_set(g).contains(d) by {
                lemma_dominator_reachable(g, d, p);
            }
            vstd::set_lib::lemma_len_subset(dominator_set(g, p), reachable_set(g));
            lemma_walk_dominators(g, p, c, walk_fuel(g));
        }
        if frontier_spec(g, x).contains(block) {
            let i = choose|i: int| 0 <= i < preds.len() && #[trigger] walk_spec(g, preds[i], c, walk_fuel(g)).contains(x);
            assert(dominator_set(g, preds[i]).contains(x));
        }
        if exists|i: int| 0 <= i < preds.len() && #[trigger] dominates_spec(g, x, preds[i]) {
            let i = choose|i: int| 0 <= i < preds.len() && #[trigger] dominates_spec(g, x, preds[i]);
            if !strict_dominators(g, block).contains(x) && preds.len() >= 2 {
                assert(walk_spec(g, preds[i], c, walk_fuel(g)).contains(x));
                assert(contributes(g, block, x));
            }
        }
    } else if reachable_spec(g, block) {
        if idom_spec(g, block) is Some {
            lemma_immediate_dominator_strict(g, block);
        }
    }
}

/// When no reachable block passes control back to the entry, the dominance frontier of `x`
/// holds exactly the reachable blocks with a reachable predecessor that `x` dominates, and that
/// `x` does not strictly dominate.
pub proof fn lemma_frontier_by_predecessors(g: SpecCfg, x: BlockId, y: BlockId)
    requires
        forall|p: BlockId| #[trigger] reachable_spec(g, p) ==> !successors_spec(g, p).contains(g.entry),
    ensures
        frontier_spec(g, x).contains(y) <==> {
            &&& reachable_spec(g, y)
            &&& exists|p: BlockId|
                reachable_spec(g, p) && #[trigger] successors_spec(g, p).contains(y) && dominates_spec(g, x, p)
            &&& !strict_dominators(g, y).contains(x)
        },
{
    lemma_frontier_characterization(g, x, y);
    let preds = reachable_predecessors_spec(g, y);
    if frontier_spec(g, x).contains(y) {
        let i = choose|i: int| 0 <= i < preds.len() && #[trigger] dominates_spec(g, x, preds[i]);
        lemma_reachable_predecessor(g, y, preds[i]);
        assert(preds.contains(preds[i]));
    }
    if reachable_spec(g, y) && !strict_dominators(g, y).contains(x) && exists|p: BlockId|
        reachable_spec(g, p) && #[trigger] successors_spec(g, p).contains(y) && dominates_spec(g, x, p) {
        let p = choose|p: BlockId| reachable_spec(g, p) && #[trigger] successors_spec(g, p).contains(y) && dominates_spec(g, x, p);
        assert(y != g.entry);
        lemma_reachable_predecessor(g, y, p);
        assert(preds.contains(p));
        let ip = choose|ip: int| 0 <= ip < preds.len() && preds[ip] == p;
        if preds.len() < 2 {
            // Then `p` is the only reachable block passing control to `y`.
            assert forall|q: BlockId| reachable_spec(g, q) && #[trigger] successors_spec(g, q).contains(y) implies q == p by {
                lemma_reachable_predecessor(g, y, q);
                let iq = choose|iq: int| 0 <= iq < preds.len() && preds[iq] == q;
                assert(iq == ip);
            }
            reveal(dominates_spec);
            assert(dominates_spec(g, x, y)) by {
                assert forall|path: Seq<BlockId>| #[trigger] is_entry_path(g, path) && path.last() == y implies path.contains(x) by {
                    let n = path.len() as int;
                    assert(n >= 2) by {
                        if n == 1 {
                            assert(path[0] == g.entry);
                        }
                    }
                    lemma_path_prefix(g, path, n - 2);
                    assert(successors_spec(g, path[n - 2]).contains(path[n - 1]));
                    assert(path[n - 2] == p);
                    let prefix = path.subrange(0, n - 1);
                    assert(prefix.contains(x));
                    let k = choose|k: int| 0 <= k < prefix.len() && prefix[k] == x;
                    assert(path[k] == x);
                }
            }
            assert(x != y) by {
                if x == y {
                    let path = choose|path: Seq<BlockId>| #[trigger] is_entry_path(g, path) && path.last() == y;
                    assert(path[path.len() - 1] == y);
                    let i = lemma_first_position(path, y, path.len() as int);
                    assert(i > 0) by {
                        assert(path[0] == g.entry);
                    }
                    lemma_path_prefix(g, path, i - 1);
                    assert(successors_spec(g, path[i - 1]).contains(path[i]));
                    assert(path[i - 1] == p);
                    let prefix = path.subrange(0, i);
                    assert(prefix.contains(y));
                    let k = choose|k: int| 0 <= k < prefix.len() && prefix[k] == y;
                    assert(path[k] == y);
                }
            }
            assert(strict_dominators(g, y).contains(x));
        }
    }
}

} // verus!
