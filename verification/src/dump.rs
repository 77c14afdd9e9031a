//! Writing a trie out: the order in which its nodes go to disk, where each
//! one lands, and how the pointers between them change on the way.
use vstd::prelude::*;
use std::collections::VecDeque;
use crate::error::Error;
use crate::hash::{BlockHeaderHash, TrieHash, BLOCK_HEADER_HASH_ENCODED_SIZE};
use crate::node::{get_node_byte_len, NodeRecord, NodeView, TrieNodeID, TrieNodeType, TriePtr};
use crate::ram::{record_of, TrieRAM, TrieRamView};
use crate::stats::{lemma_reads_fit, AccessStats};

verus! {

/// The pointer to the root of a trie in RAM.
pub open spec fn root_ptr() -> TriePtr {
    TriePtr { id: TrieNodeID::Node256, chr: 0, ptr: 0, back_block: 0 }
}

/// Those of some pointer slots that lead to nodes of the same trie, in slot order.
pub open spec fn local_ptrs(ptrs: Seq<TriePtr>) -> Seq<TriePtr> {
    ptrs.filter(|p: TriePtr| p.is_local())
}

/// Whether a pointer leads past the nodes there are.
pub open spec fn dangles(nodes: Seq<NodeRecord>, p: TriePtr) -> bool {
    p.ptr >= nodes.len()
}

/// The pointers to the children of the node that `p` leads to, in slot order.
pub open spec fn child_ptrs(nodes: Seq<NodeRecord>, p: TriePtr) -> Seq<TriePtr> {
    if dangles(nodes, p) {
        Seq::empty()
    } else {
        local_ptrs(nodes[p.ptr as int].node.ptrs)
    }
}

/// The bytes on disk of the node that `p` leads to.
pub open spec fn node_bytes(nodes: Seq<NodeRecord>, p: TriePtr) -> nat {
    if dangles(nodes, p) {
        0
    } else {
        nodes[p.ptr as int].node.byte_len
    }
}

/// The pointers met by the time the children of the first `n` nodes have been
/// listed, breadth first: the root, then its children, then theirs.
pub open spec fn visit_order(nodes: Seq<NodeRecord>, n: nat) -> Seq<TriePtr>
    decreases n,
{
    if n == 0 {
        seq![root_ptr()]
    } else {
        let before = visit_order(nodes, (n - 1) as nat);
        if n - 1 < before.len() {
            before + child_ptrs(nodes, before[n - 1])
        } else {
            before
        }
    }
}

/// Whether some pointer of a list leads past the nodes there are.
pub open spec fn any_dangles(nodes: Seq<NodeRecord>, order: Seq<TriePtr>) -> bool {
    exists|i: int| 0 <= i < order.len() && dangles(nodes, #[trigger] order[i])
}

/// Whether the `d`-th pointer of a list is the first one that leads past the nodes there are.
pub open spec fn first_dangling(nodes: Seq<NodeRecord>, order: Seq<TriePtr>, d: int) -> bool {
    &&& 0 <= d < order.len()
    &&& dangles(nodes, order[d])
    &&& forall|i: int| 0 <= i < d ==> !dangles(nodes, #[trigger] order[i])
}

/// Where in the file the `i`-th node of a list starts, when the nodes follow
/// one another behind the parent's hash.
pub open spec fn file_offset(nodes: Seq<NodeRecord>, order: Seq<TriePtr>, i: nat) -> nat
    decreases i,
{
    if i == 0 {
        BLOCK_HEADER_HASH_ENCODED_SIZE as nat
    } else {
        file_offset(nodes, order, (i - 1) as nat) + node_bytes(nodes, order[i - 1])
    }
}

/// Whether a breadth-first walk of the trie is over once the children of `n`
/// nodes have been listed: no node is left, or a pointer was met that leads nowhere.
pub open spec fn walk_ends(nodes: Seq<NodeRecord>, n: nat) -> bool {
    visit_order(nodes, n).len() <= n || any_dangles(nodes, visit_order(nodes, n))
}

/// Whether a walk of the trie is over after `n` nodes, and the machine's
/// integers can count the reads and the bytes that it takes.
pub open spec fn walk_fits(trie: TrieRamView, n: nat) -> bool {
    let order = visit_order(trie.nodes, n);
    &&& walk_ends(trie.nodes, n)
    &&& trie.stats.read_room(order.len() as int)
    &&& file_offset(trie.nodes, order, order.len()) <= u64::MAX
}

/// Whether a trie can be walked at all: its pointers do not lead in a circle,
/// unless the walk meets a pointer that leads nowhere, and the machine's
/// integers can count what the walk takes.
pub open spec fn dumpable(trie: TrieRamView) -> bool {
    exists|n: nat| #[trigger] walk_fits(trie, n)
}

/// Whether no pointer that a walk of the trie meets leads nowhere.
pub open spec fn sound(nodes: Seq<NodeRecord>) -> bool {
    forall|n: nat| !any_dangles(nodes, #[trigger] visit_order(nodes, n))
}

/// Whether `data` holds the nodes of the trie breadth first.
pub open spec fn listed(nodes: Seq<NodeRecord>, data: Seq<(TrieNodeType, TrieHash)>) -> bool {
    let order = visit_order(nodes, data.len());
    &&& order.len() == data.len()
    &&& !any_dangles(nodes, order)
    &&& forall|i: int|
        0 <= i < data.len() ==> record_of(#[trigger] data[i]) == nodes[order[i].ptr as int]
}

/// Which place in the order of visit the child in slot `slot` of the `j`-th node has.
pub open spec fn child_index(
    nodes: Seq<NodeRecord>,
    j: nat,
    ptrs: Seq<TriePtr>,
    slot: int,
) -> nat {
    visit_order(nodes, j).len() + local_ptrs(ptrs.take(slot)).len()
}

/// The pointer that the file holds in slot `slot` of the `j`-th node: one to a
/// node of the same trie leads to where that node starts in the file, and any
/// other is kept as it is.
pub open spec fn relocated_ptr(
    nodes: Seq<NodeRecord>,
    order: Seq<TriePtr>,
    j: nat,
    ptrs: Seq<TriePtr>,
    slot: int,
) -> TriePtr {
    if ptrs[slot].is_local() {
        TriePtr {
            ptr: file_offset(nodes, order, child_index(nodes, j, ptrs, slot)) as u32,
            ..ptrs[slot]
        }
    } else {
        ptrs[slot]
    }
}

/// The `j`-th node as the file holds it.
pub open spec fn relocated(nodes: Seq<NodeRecord>, order: Seq<TriePtr>, j: nat) -> NodeView {
    let node = nodes[order[j as int].ptr as int].node;
    NodeView {
        ptrs: Seq::new(
            node.ptrs.len(),
            |slot: int| relocated_ptr(nodes, order, j, node.ptrs, slot),
        ),
        ..node
    }
}

/// Where in the file the `j`-th node is written. A pointer holds 32 bits of an
/// offset, and a node is written where the pointers to it lead.
pub open spec fn write_offset(nodes: Seq<NodeRecord>, order: Seq<TriePtr>, j: nat) -> u64 {
    if j == 0 {
        BLOCK_HEADER_HASH_ENCODED_SIZE as u64
    } else {
        (file_offset(nodes, order, j) as u32) as u64
    }
}

/// One node to write, and where in the file to write it.
#[derive(Debug, PartialEq, Eq)]
pub struct DumpEntry {
    pub at: u64,
    pub node: TrieNodeType,
    pub hash: TrieHash,
}

/// What a trie's file is to hold: the parent's hash at its head, then the
/// nodes, up to offset `end`.
#[derive(Debug, PartialEq, Eq)]
pub struct DumpPlan {
    pub parent: BlockHeaderHash,
    pub entries: Vec<DumpEntry>,
    pub end: u64,
}

impl DumpPlan {
    /// Whether the plan is the one for a trie with these nodes and this parent block.
    pub open spec fn lays_out(&self, nodes: Seq<NodeRecord>, parent: BlockHeaderHash) -> bool {
        let n = self.entries@.len();
        let order = visit_order(nodes, n);
        &&& self.parent == parent
        &&& order.len() == n
        &&& !any_dangles(nodes, order)
        &&& self.end == file_offset(nodes, order, n)
        &&& forall|j: int|
            0 <= j < n ==> {
                let entry = #[trigger] self.entries@[j];
                &&& entry.at == write_offset(nodes, order, j as nat)
                &&& entry.node@ == relocated(nodes, order, j as nat)
                &&& entry.hash == nodes[order[j].ptr as int].hash
            }
    }
}

/// The pointers met early on are the first of those met later.
pub proof fn lemma_order_grows(nodes: Seq<NodeRecord>, a: nat, b: nat)
    requires
        a <= b,
    ensures
        visit_order(nodes, a).len() <= visit_order(nodes, b).len(),
        forall|i: int|
            0 <= i < visit_order(nodes, a).len() ==> #[trigger] visit_order(nodes, b)[i]
                == visit_order(nodes, a)[i],
    decreases b - a,
{
    if a < b {
        lemma_order_grows(nodes, a, (b - 1) as nat);
    }
}

/// Once no node is left, the list of pointers grows no more.
pub proof fn lemma_order_settles(nodes: Seq<NodeRecord>, n: nat, m: nat)
    requires
        n <= m,
        visit_order(nodes, n).len() <= n,
    ensures
        visit_order(nodes, m) == visit_order(nodes, n),
    decreases m - n,
{
    if n < m {
        lemma_order_settles(nodes, n, (m - 1) as nat);
    }
}

/// Offsets depend only on the nodes that come before.
pub(crate) proof fn lemma_offset_prefix(nodes: Seq<NodeRecord>, a: Seq<TriePtr>, b: Seq<TriePtr>, i: nat)
    requires
        i <= a.len() <= b.len(),
        forall|j: int| 0 <= j < a.len() ==> #[trigger] b[j] == a[j],
    ensures
        file_offset(nodes, a, i) == file_offset(nodes, b, i),
    decreases i,
{
    if i > 0 {
        lemma_offset_prefix(nodes, a, b, (i - 1) as nat);
        assert(b[i - 1] == a[i - 1]);
    }
}

/// Offsets do not decrease.
pub proof fn lemma_offset_monotone(nodes: Seq<NodeRecord>, order: Seq<TriePtr>, i: nat, j: nat)
    requires
        i <= j,
    ensures
        file_offset(nodes, order, i) <= file_offset(nodes, order, j),
    decreases j - i,
{
    if i < j {
        lemma_offset_monotone(nodes, order, i, (j - 1) as nat);
    }
}

/// One more slot adds its pointer to the local ones, or nothing.
pub(crate) proof fn lemma_local_step(ptrs: Seq<TriePtr>, slot: int)
    requires
        0 <= slot < ptrs.len(),
    ensures
        local_ptrs(ptrs.take(slot + 1)) == if ptrs[slot].is_local() {
            local_ptrs(ptrs.take(slot)).push(ptrs[slot])
        } else {
            local_ptrs(ptrs.take(slot))
        },
{
    reveal(Seq::filter);
    let longer = ptrs.take(slot + 1);
    assert(longer.drop_last() =~= ptrs.take(slot));
    assert(longer.last() == ptrs[slot]);
}

/// The local pointers of the first slots are the first of the local pointers.
pub(crate) proof fn lemma_local_prefix(ptrs: Seq<TriePtr>, a: int, b: int)
    requires
        0 <= a <= b <= ptrs.len(),
    ensures
        local_ptrs(ptrs.take(a)).len() <= local_ptrs(ptrs.take(b)).len(),
        forall|i: int|
            0 <= i < local_ptrs(ptrs.take(a)).len() ==> #[trigger] local_ptrs(ptrs.take(b))[i]
                == local_ptrs(ptrs.take(a))[i],
    decreases b - a,
{
    if a < b {
        lemma_local_prefix(ptrs, a, b - 1);
        lemma_local_step(ptrs, b - 1);
    }
}

/// The place that a local pointer has among the local pointers of its node.
proof fn lemma_local_position(ptrs: Seq<TriePtr>, slot: int)
    requires
        0 <= slot < ptrs.len(),
        ptrs[slot].is_local(),
    ensures
        local_ptrs(ptrs.take(slot)).len() < local_ptrs(ptrs).len(),
        local_ptrs(ptrs)[local_ptrs(ptrs.take(slot)).len() as int] == ptrs[slot],
{
    lemma_local_step(ptrs, slot);
    lemma_local_prefix(ptrs, slot + 1, ptrs.len() as int);
    assert(ptrs.take(ptrs.len() as int) =~= ptrs);
}

/// A local pointer of a node that is visited is met at the place that
/// `child_index` gives.
pub proof fn lemma_child_is_met(nodes: Seq<NodeRecord>, n: nat, j: nat, slot: int)
    requires
        j < n,
        j < visit_order(nodes, n).len(),
        !dangles(nodes, visit_order(nodes, n)[j as int]),
        ({
            let ptrs = nodes[visit_order(nodes, n)[j as int].ptr as int].node.ptrs;
            0 <= slot < ptrs.len() && ptrs[slot].is_local()
        }),
    ensures
        ({
            let order = visit_order(nodes, n);
            let ptrs = nodes[order[j as int].ptr as int].node.ptrs;
            let c = child_index(nodes, j, ptrs, slot);
            &&& 0 < c < order.len()
            &&& order[c as int] == ptrs[slot]
        }),
{
    let order = visit_order(nodes, n);
    let ptrs = nodes[order[j as int].ptr as int].node.ptrs;
    let before = visit_order(nodes, j);
    let after = visit_order(nodes, j + 1);
    lemma_order_grows(nodes, j, n);
    lemma_order_grows(nodes, j + 1, n);
    lemma_order_grows(nodes, 0, j);
    if j >= before.len() {
        lemma_order_settles(nodes, j, n);
    }
    assert(order[j as int] == before[j as int]);
    assert(after == before + local_ptrs(ptrs));
    lemma_local_position(ptrs, slot);
    let c = child_index(nodes, j, ptrs, slot);
    assert(after[c as int] == ptrs[slot]);
    assert(order[c as int] == after[c as int]);
}

/// A first read and the ones after it count as all of them together.
proof fn lemma_reads_after_first(stats: AccessStats, first: TriePtr, rest: Seq<TriePtr>)
    ensures
        stats.after_read(first.id).after_reads(rest) == stats.after_reads(seq![first] + rest),
    decreases rest.len(),
{
    let all = seq![first] + rest;
    if rest.len() == 0 {
        assert(all.drop_last() =~= Seq::<TriePtr>::empty());
        assert(stats.after_reads(all.drop_last()) == stats);
    } else {
        lemma_reads_after_first(stats, first, rest.drop_last());
        assert(all.drop_last() =~= seq![first] + rest.drop_last());
        assert(all.last() == rest.last());
    }
}

/// If a walk lists every node without meeting a pointer that leads nowhere,
/// there is none to meet.
pub proof fn lemma_complete_walk_is_sound(nodes: Seq<NodeRecord>, n: nat)
    requires
        visit_order(nodes, n).len() <= n,
        !any_dangles(nodes, visit_order(nodes, n)),
    ensures
        sound(nodes),
{
    assert forall|m: nat| !any_dangles(nodes, #[trigger] visit_order(nodes, m)) by {
        if m <= n {
            lemma_order_grows(nodes, m, n);
            assert forall|i: int| 0 <= i < visit_order(nodes, m).len() implies !dangles(
                nodes,
                #[trigger] visit_order(nodes, m)[i],
            ) by {
                assert(visit_order(nodes, n)[i] == visit_order(nodes, m)[i]);
            }
        } else {
            lemma_order_settles(nodes, n, m);
        }
    }
}

impl TrieRAM {
    /// Lists the nodes of the trie breadth first, with their hashes and the
    /// offsets in the file at which they end.
    fn list_nodes(
        &mut self,
        root: &TrieNodeType,
        hash: &TrieHash,
        Ghost(n): Ghost<nat>,
    ) -> (r: Result<(Vec<(TrieNodeType, TrieHash)>, Vec<u32>, u64), Error>)
        requires
            old(self).wf(),
            old(self)@.lookup(root_ptr()) == Some(record_of((*root, *hash))),
            walk_ends(old(self)@.nodes, n),
            old(self)@.stats.read_room(visit_order(old(self)@.nodes, n).len() - 1),
            file_offset(
                old(self)@.nodes,
                visit_order(old(self)@.nodes, n),
                visit_order(old(self)@.nodes, n).len(),
            ) <= u64::MAX,
        ensures
            final(self).wf(),
            match r {
                Ok((data, offsets, end)) => {
                    let nodes = old(self)@.nodes;
                    let order = visit_order(nodes, data@.len());
                    &&& listed(nodes, data@)
                    &&& offsets@.len() == data@.len()
                    &&& forall|i: int|
                        0 <= i < data@.len() ==> #[trigger] offsets@[i] == file_offset(
                            nodes,
                            order,
                            (i + 1) as nat,
                        ) as u32
                    &&& end == file_offset(nodes, order, order.len())
                    &&& final(self)@ == (TrieRamView {
                        stats: old(self)@.stats.after_reads(order.skip(1)),
                        ..old(self)@
                    })
                },
                Err(e) => {
                    &&& e == Error::NotFoundError
                    &&& exists|m: nat, d: int|
                        d >= 1 && #[trigger] first_dangling(
                            old(self)@.nodes,
                            visit_order(old(self)@.nodes, m),
                            d,
                        ) && final(self)@ == (TrieRamView {
                            stats: old(self)@.stats.after_reads(
                                visit_order(old(self)@.nodes, m).subrange(1, d + 1),
                            ),
                            ..old(self)@
                        })
                },
            },
    {
        let ghost nodes = self@.nodes;
        let ghost last_order = visit_order(nodes, n);
        let mut frontier: VecDeque<(TrieNodeType, TrieHash)> = VecDeque::new();
        let mut node_data: Vec<(TrieNodeType, TrieHash)> = Vec::new();
        let mut offsets: Vec<u32> = Vec::new();
        frontier.push_back((root.clone(), *hash));
        // the head of the file is reserved for the parent block's hash
        let mut ptr: u64 = BLOCK_HEADER_HASH_ENCODED_SIZE as u64;
        assert(visit_order(nodes, 0).skip(1) =~= Seq::<TriePtr>::empty());
        assert(self@.stats.after_reads(visit_order(nodes, 0).skip(1)) == self@.stats);
        while frontier.len() > 0
            invariant
                self.wf(),
                nodes == old(self)@.nodes,
                last_order == visit_order(nodes, n),
                walk_ends(nodes, n),
                old(self)@.stats.read_room(last_order.len() - 1),
                file_offset(nodes, last_order, last_order.len()) <= u64::MAX,
                node_data@.len() <= n || frontier@.len() == 0,
                node_data@.len() + frontier@.len() == visit_order(nodes, node_data@.len()).len(),
                !any_dangles(nodes, visit_order(nodes, node_data@.len())),
                forall|i: int|
                    0 <= i < node_data@.len() ==> record_of(#[trigger] node_data@[i])
                        == nodes[visit_order(nodes, node_data@.len())[i].ptr as int],
                forall|i: int|
                    0 <= i < frontier@.len() ==> record_of(#[trigger] frontier@[i])
                        == nodes[visit_order(nodes, node_data@.len())[node_data@.len() + i].ptr as int],
                offsets@.len() == node_data@.len(),
                forall|i: int|
                    0 <= i < offsets@.len() ==> #[trigger] offsets@[i] == file_offset(
                        nodes,
                        visit_order(nodes, node_data@.len()),
                        (i + 1) as nat,
                    ) as u32,
                ptr == file_offset(
                    nodes,
                    visit_order(nodes, node_data@.len()),
                    node_data@.len(),
                ),
                self@ == (TrieRamView {
                    stats: old(self)@.stats.after_reads(
                        visit_order(nodes, node_data@.len()).skip(1),
                    ),
                    ..old(self)@
                }),
            decreases n - node_data@.len(),
        {
            let ghost k = node_data@.len();
            let ghost order = visit_order(nodes, k);
            let ghost waiting = frontier@;
            proof {
                if k >= n {
                    lemma_order_grows(nodes, n, k);
                    assert(!any_dangles(nodes, last_order)) by {
                        assert forall|i: int| 0 <= i < last_order.len() implies !dangles(
                            nodes,
                            #[trigger] last_order[i],
                        ) by {
                            assert(order[i] == last_order[i]);
                        }
                    }
                    lemma_order_settles(nodes, n, k);
                    assert(false);
                }
                lemma_order_grows(nodes, k, n);
                lemma_order_grows(nodes, k + 1, n);
                lemma_order_grows(nodes, 0, k);
            }
            let (node, node_hash) = frontier.pop_front().unwrap();
            assert(record_of((node, node_hash)) == record_of(waiting[0]));
            let ghost ptrs = node@.ptrs;
            assert(!dangles(nodes, order[k as int]));
            assert(visit_order(nodes, k + 1) == order + local_ptrs(ptrs));
            proof {
                lemma_offset_prefix(nodes, order, last_order, k);
                lemma_offset_prefix(nodes, order, last_order, k + 1);
                lemma_offset_monotone(nodes, last_order, k + 1, last_order.len());
            }
            let num_written: usize = get_node_byte_len(&node);
            ptr = ptr + num_written as u64;
            // queue each child
            assert(ptrs.take(0) =~= Seq::<TriePtr>::empty());
            assert(local_ptrs(ptrs.take(0)) =~= Seq::<TriePtr>::empty()) by {
                reveal(Seq::filter);
            }
            assert(order + local_ptrs(ptrs.take(0)) =~= order);
            assert forall|i: int| 0 <= i < frontier@.len() implies record_of(#[trigger] frontier@[i])
                == nodes[(order + local_ptrs(ptrs.take(0)))[k + 1 + i].ptr as int] by {
                assert(frontier@[i] == waiting[i + 1]);
            }
            if !node.is_leaf() {
                let slots = node.ptrs();
                let num_children: usize = slots.len();
                for i in 0..num_children
                    invariant
                        self.wf(),
                        nodes == old(self)@.nodes,
                        last_order == visit_order(nodes, n),
                        old(self)@.stats.read_room(last_order.len() - 1),
                        k + 1 <= n,
                        k < order.len(),
                        order == visit_order(nodes, k),
                        visit_order(nodes, k + 1) == order + local_ptrs(ptrs),
                        visit_order(nodes, k + 1).len() <= last_order.len(),
                        ptrs == slots@,
                        num_children == ptrs.len(),
                        k + 1 + frontier@.len() == (order + local_ptrs(ptrs.take(i as int))).len(),
                        !any_dangles(nodes, order + local_ptrs(ptrs.take(i as int))),
                        forall|j: int|
                            0 <= j < frontier@.len() ==> record_of(#[trigger] frontier@[j])
                                == nodes[(order + local_ptrs(ptrs.take(i as int)))[k + 1 + j].ptr as int],
                        self@ == (TrieRamView {
                            stats: old(self)@.stats.after_reads(
                                (order + local_ptrs(ptrs.take(i as int))).skip(1),
                            ),
                            ..old(self)@
                        }),
                {
                    let ghost met = order + local_ptrs(ptrs.take(i as int));
                    proof {
                        lemma_local_step(ptrs, i as int);
                    }
                    if slots[i].local() {
                        proof {
                            lemma_local_position(ptrs, i as int);
                            lemma_local_prefix(ptrs, i as int, ptrs.len() as int);
                            assert(ptrs.take(ptrs.len() as int) =~= ptrs);
                            lemma_reads_fit(old(self)@.stats, met.skip(1), last_order.len() - 1);
                            assert((order + local_ptrs(ptrs.take(i + 1))) =~= met.push(ptrs[i as int]));
                            assert(met.push(ptrs[i as int]).skip(1) =~= met.skip(1).push(ptrs[i as int]));
                            assert(met.skip(1).push(ptrs[i as int]).drop_last() =~= met.skip(1));
                        }
                        let (child, child_hash) = match self.read_nodetype(&slots[i]) {
                            Ok(found) => found,
                            Err(e) => {
                                proof {
                                    let all = visit_order(nodes, k + 1);
                                    let d = met.len() as int;
                                    assert(all[d] == ptrs[i as int]);
                                    assert forall|j: int| 0 <= j < d implies !dangles(
                                        nodes,
                                        #[trigger] all[j],
                                    ) by {
                                        assert(all[j] == met[j]);
                                    }
                                    assert(all.subrange(1, d + 1) =~= met.skip(1).push(ptrs[i as int]));
                                    assert(first_dangling(nodes, visit_order(nodes, k + 1), d));
                                }
                                return Err(e);
                            },
                        };
                        let ghost queued = frontier@;
                        frontier.push_back((child, child_hash));
                        proof {
                            let longer = met.push(ptrs[i as int]);
                            assert forall|j: int| 0 <= j < frontier@.len() implies record_of(
                                #[trigger] frontier@[j],
                            ) == nodes[longer[k + 1 + j].ptr as int] by {
                                if j < queued.len() {
                                    assert(frontier@[j] == queued[j]);
                                }
                            }
                            assert forall|j: int| 0 <= j < longer.len() implies !dangles(
                                nodes,
                                #[trigger] longer[j],
                            ) by {
                                if j < met.len() {
                                    assert(longer[j] == met[j]);
                                }
                            }
                        }
                    }
                }
                assert(ptrs.take(num_children as int) =~= ptrs);
            } else {
                assert(ptrs =~= Seq::<TriePtr>::empty());
                assert(ptrs.take(0) =~= ptrs);
            }
            let ghost next = visit_order(nodes, k + 1);
            let ghost done = node_data@;
            let ghost ends = offsets@;
            assert(next == order + local_ptrs(ptrs));
            node_data.push((node, node_hash));
            offsets.push(ptr as u32);
            proof {
                assert forall|i: int| 0 <= i < node_data@.len() implies record_of(
                    #[trigger] node_data@[i],
                ) == nodes[next[i].ptr as int] by {
                    assert(next[i] == order[i]);
                    if i < k {
                        assert(node_data@[i] == done[i]);
                    }
                }
                lemma_offset_prefix(nodes, order, next, k + 1);
                assert forall|i: int| 0 <= i < offsets@.len() implies #[trigger] offsets@[i]
                    == file_offset(nodes, next, (i + 1) as nat) as u32 by {
                    lemma_offset_prefix(nodes, order, next, (i + 1) as nat);
                    if i < k {
                        assert(offsets@[i] == ends[i]);
                    }
                }
            }
        }
        Ok((node_data, offsets, ptr))
    }
}

/// The node listed at place `j`, with the pointers to nodes of its own trie made
/// to lead to where these start in the file. `next_child` is the number of
/// children of the nodes listed before; the children of this one are counted with it.
fn relocate(
    nodes: Ghost<Seq<NodeRecord>>,
    data: &Vec<(TrieNodeType, TrieHash)>,
    offsets: &Vec<u32>,
    j: usize,
    next_child: &mut usize,
) -> (node: TrieNodeType)
    requires
        listed(nodes@, data@),
        offsets@.len() == data@.len(),
        forall|i: int|
            0 <= i < data@.len() ==> #[trigger] offsets@[i] == file_offset(
                nodes@,
                visit_order(nodes@, data@.len()),
                (i + 1) as nat,
            ) as u32,
        j < data@.len(),
        *old(next_child) + 1 == visit_order(nodes@, j as nat).len(),
    ensures
        node@ == relocated(nodes@, visit_order(nodes@, data@.len()), j as nat),
        *final(next_child) + 1 == visit_order(nodes@, (j + 1) as nat).len(),
{
    let ghost order = visit_order(nodes@, data@.len());
    let mut node = data[j].0.clone();
    let ghost unmoved = node@;
    let ghost ptrs = unmoved.ptrs;
    assert(record_of(data@[j as int]) == nodes@[order[j as int].ptr as int]);
    proof {
        lemma_order_grows(nodes@, j as nat, data@.len());
        lemma_order_grows(nodes@, (j + 1) as nat, data@.len());
        if j >= visit_order(nodes@, j as nat).len() {
            lemma_order_settles(nodes@, j as nat, data@.len());
        }
        assert(visit_order(nodes@, j as nat)[j as int] == order[j as int]);
        assert(!dangles(nodes@, order[j as int]));
        assert(visit_order(nodes@, (j + 1) as nat) == visit_order(nodes@, j as nat) + local_ptrs(ptrs));
        reveal(Seq::filter);
        assert(local_ptrs(ptrs.take(0)) =~= Seq::<TriePtr>::empty());
    }
    if !node.is_leaf() {
        let num_children: usize = node.ptrs().len();
        for slot in 0..num_children
            invariant
                listed(nodes@, data@),
                order == visit_order(nodes@, data@.len()),
                offsets@.len() == data@.len(),
                forall|i: int|
                    0 <= i < data@.len() ==> #[trigger] offsets@[i] == file_offset(
                        nodes@,
                        order,
                        (i + 1) as nat,
                    ) as u32,
                j < data@.len(),
                unmoved == nodes@[order[j as int].ptr as int].node,
                ptrs == unmoved.ptrs,
                !unmoved.is_leaf(),
                num_children == ptrs.len(),
                node@ == (NodeView { ptrs: node@.ptrs, ..unmoved }),
                node@.ptrs.len() == ptrs.len(),
                forall|s: int|
                    0 <= s < slot ==> #[trigger] node@.ptrs[s] == relocated_ptr(
                        nodes@,
                        order,
                        j as nat,
                        ptrs,
                        s,
                    ),
                forall|s: int| slot <= s < ptrs.len() ==> #[trigger] node@.ptrs[s] == ptrs[s],
                *next_child + 1 == child_index(nodes@, j as nat, ptrs, slot as int),
        {
            let ghost before = node@;
            let p: TriePtr = node.ptrs()[slot];
            assert(p == ptrs[slot as int]);
            proof {
                lemma_local_step(ptrs, slot as int);
            }
            if p.local() {
                proof {
                    assert(!dangles(nodes@, order[j as int]));
                    lemma_child_is_met(nodes@, data@.len(), j as nat, slot as int);
                }
                assert(*next_child + 1 < data.len());
                node.redirect(slot, offsets[*next_child]);
                *next_child = *next_child + 1;
            }
            assert forall|s: int| 0 <= s < slot + 1 implies #[trigger] node@.ptrs[s]
                == relocated_ptr(nodes@, order, j as nat, ptrs, s) by {
                if s < slot {
                    assert(before.ptrs[s] == relocated_ptr(nodes@, order, j as nat, ptrs, s));
                }
            }
            assert forall|s: int| slot + 1 <= s < ptrs.len() implies #[trigger] node@.ptrs[s]
                == ptrs[s] by {
                assert(before.ptrs[s] == ptrs[s]);
            }
        }
        assert(ptrs.take(num_children as int) =~= ptrs);
    } else {
        assert(ptrs =~= Seq::<TriePtr>::empty());
        assert(ptrs.take(0) =~= ptrs);
    }
    assert(node@ =~= relocated(nodes@, order, j as nat));
    node
}

impl TrieRAM {
    /// Walks through the buffered nodes and plans how they go to a file.
    fn dump_traverse(
        &mut self,
        root: &TrieNodeType,
        hash: &TrieHash,
        parent_hash: &BlockHeaderHash,
        Ghost(n): Ghost<nat>,
    ) -> (r: Result<DumpPlan, Error>)
        requires
            old(self).wf(),
            old(self)@.lookup(root_ptr()) == Some(record_of((*root, *hash))),
            walk_ends(old(self)@.nodes, n),
            old(self)@.stats.read_room(visit_order(old(self)@.nodes, n).len() - 1),
            file_offset(
                old(self)@.nodes,
                visit_order(old(self)@.nodes, n),
                visit_order(old(self)@.nodes, n).len(),
            ) <= u64::MAX,
        ensures
            final(self).wf(),
            match r {
                Ok(plan) => {
                    &&& plan.lays_out(old(self)@.nodes, *parent_hash)
                    &&& final(self)@ == (TrieRamView {
                        stats: old(self)@.stats.after_reads(
                            visit_order(old(self)@.nodes, plan.entries@.len()).skip(1),
                        ),
                        ..old(self)@
                    })
                },
                Err(e) => {
                    &&& e == Error::NotFoundError
                    &&& exists|m: nat, d: int|
                        d >= 1 && #[trigger] first_dangling(
                            old(self)@.nodes,
                            visit_order(old(self)@.nodes, m),
                            d,
                        ) && final(self)@ == (TrieRamView {
                            stats: old(self)@.stats.after_reads(
                                visit_order(old(self)@.nodes, m).subrange(1, d + 1),
                            ),
                            ..old(self)@
                        })
                },
            },
    {
        let ghost nodes = self@.nodes;
        // step 1: list each node in breadth-first order to get the offsets
        let (node_data, offsets, end) = match self.list_nodes(root, hash, Ghost(n)) {
            Ok(listing) => listing,
            Err(e) => {
                return Err(e);
            },
        };
        let ghost order = visit_order(nodes, node_data@.len());
        // step 2: update the pointers in all nodes, and place the nodes
        let mut entries: Vec<DumpEntry> = Vec::new();
        let mut next_child: usize = 0;
        for j in 0..node_data.len()
            invariant
                listed(nodes, node_data@),
                order == visit_order(nodes, node_data@.len()),
                offsets@.len() == node_data@.len(),
                forall|i: int|
                    0 <= i < node_data@.len() ==> #[trigger] offsets@[i] == file_offset(
                        nodes,
                        order,
                        (i + 1) as nat,
                    ) as u32,
                next_child + 1 == visit_order(nodes, j as nat).len(),
                entries@.len() == j,
                forall|i: int|
                    0 <= i < j ==> {
                        let entry = #[trigger] entries@[i];
                        &&& entry.at == write_offset(nodes, order, i as nat)
                        &&& entry.node@ == relocated(nodes, order, i as nat)
                        &&& entry.hash == nodes[order[i].ptr as int].hash
                    },
        {
            let node = relocate(Ghost(nodes), &node_data, &offsets, j, &mut next_child);
            let at: u64 = if j == 0 {
                BLOCK_HEADER_HASH_ENCODED_SIZE as u64
            } else {
                offsets[j - 1] as u64
            };
            let node_hash: TrieHash = node_data[j].1;
            assert(record_of(node_data@[j as int]) == nodes[order[j as int].ptr as int]);
            entries.push(DumpEntry { at, node, hash: node_hash });
        }
        Ok(DumpPlan { parent: *parent_hash, entries, end })
    }

    /// Plans the file of the trie, if it is the trie of block `bhh`: its nodes
    /// breadth first behind the hash of the parent block, the pointers between
    /// them made to lead to where they are in the file.
    ///
    /// A trie whose pointers lead in a circle has no such file, and must not be
    /// handed in.
    pub fn dump(&mut self, bhh: &BlockHeaderHash, parent_bhh: &BlockHeaderHash) -> (r: Result<
        DumpPlan,
        Error,
    >)
        requires
            old(self).wf(),
            old(self)@.block_header == *bhh ==> dumpable(old(self)@),
        ensures
            final(self).wf(),
            old(self)@.block_header != *bhh ==> r == Err::<DumpPlan, Error>(Error::NotFoundError)
                && final(self)@ == old(self)@,
            old(self)@.block_header == *bhh ==> (r is Ok <==> sound(old(self)@.nodes)),
            old(self)@.block_header == *bhh ==> match r {
                Ok(plan) => {
                    &&& plan.lays_out(old(self)@.nodes, *parent_bhh)
                    &&& final(self)@ == (TrieRamView {
                        stats: old(self)@.stats.after_reads(
                            visit_order(old(self)@.nodes, plan.entries@.len()),
                        ),
                        ..old(self)@
                    })
                },
                Err(e) => {
                    &&& e == Error::NotFoundError
                    &&& exists|m: nat, d: int| #[trigger]
                        first_dangling(old(self)@.nodes, visit_order(old(self)@.nodes, m), d)
                            && final(self)@ == (TrieRamView {
                            stats: old(self)@.stats.after_reads(
                                visit_order(old(self)@.nodes, m).take(d + 1),
                            ),
                            ..old(self)@
                        })
                },
            },
    {
        if self.block() == *bhh {
            let ghost nodes = self@.nodes;
            let ghost n = choose|n: nat| #[trigger] walk_fits(self@, n);
            let ghost start = self@.stats;
            let root_place = TriePtr::new(TrieNodeID::Node256, 0, 0);
            proof {
                lemma_order_grows(nodes, 0, n);
                assert(visit_order(nodes, 0) =~= seq![root_ptr()]);
                assert(Seq::<TriePtr>::empty().push(root_ptr()).drop_last() =~= Seq::<TriePtr>::empty());
                assert(seq![root_ptr()].drop_last() =~= Seq::<TriePtr>::empty());
                assert(start.after_reads(seq![root_ptr()].drop_last()) == start);
            }
            let (root, hash) = match self.read_nodetype(&root_place) {
                Ok(found) => found,
                Err(e) => {
                    proof {
                        assert(visit_order(nodes, 0).take(1) =~= seq![root_ptr()]);
                        assert(first_dangling(nodes, visit_order(nodes, 0), 0));
                    }
                    return Err(e);
                },
            };
            let r = self.dump_traverse(&root, &hash, parent_bhh, Ghost(n));
            proof {
                if r is Ok {
                    let count = r->Ok_0.entries@.len();
                    let order = visit_order(nodes, count);
                    lemma_order_grows(nodes, 0, count);
                    lemma_reads_after_first(start, root_ptr(), order.skip(1));
                    assert(seq![root_ptr()] + order.skip(1) =~= order);
                    lemma_complete_walk_is_sound(nodes, count);
                } else {
                    let (m, d) = choose|m: nat, d: int|
                        d >= 1 && #[trigger] first_dangling(nodes, visit_order(nodes, m), d)
                            && self@.stats == start.after_read(root_ptr().id).after_reads(
                            visit_order(nodes, m).subrange(1, d + 1),
                        );
                    let order = visit_order(nodes, m);
                    lemma_order_grows(nodes, 0, m);
                    lemma_reads_after_first(start, root_ptr(), order.subrange(1, d + 1));
                    assert(seq![root_ptr()] + order.subrange(1, d + 1) =~= order.take(d + 1));
                    assert(first_dangling(nodes, visit_order(nodes, m), d));
                }
            }
            r
        } else {
            Err(Error::NotFoundError)
        }
    }
}

} // verus!
