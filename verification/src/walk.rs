//! Finding out whether a trie can be written out: whether walking it comes to
//! an end, and can be counted.
use vstd::prelude::*;
use crate::dump::{
    any_dangles, dangles, dumpable, file_offset, lemma_complete_walk_is_sound, lemma_local_step,
    lemma_offset_monotone, lemma_offset_prefix, lemma_order_grows, lemma_order_settles, local_ptrs,
    node_bytes, root_ptr, visit_order, walk_ends, walk_fits, DumpPlan,
};
use crate::hash::{BlockHeaderHash, BLOCK_HEADER_HASH_ENCODED_SIZE};
use crate::node::{get_node_byte_len, NodeRecord, TrieNodeID, TriePtr};
use crate::ram::{TrieRAM, TrieRamView};

verus! {

/// Whether a walk of the trie is over after at most `limit` nodes, and can be counted.
pub open spec fn fits_by(trie: TrieRamView, limit: nat) -> bool {
    exists|n: nat| n <= limit && #[trigger] walk_fits(trie, n)
}

/// Where a list of nodes ends in the file.
spec fn list_end(nodes: Seq<NodeRecord>, order: Seq<TriePtr>) -> nat {
    file_offset(nodes, order, order.len())
}

/// A list that starts with another ends no earlier.
proof fn lemma_longer_list(nodes: Seq<NodeRecord>, a: Seq<TriePtr>, b: Seq<TriePtr>)
    requires
        a.len() <= b.len(),
        forall|i: int| 0 <= i < a.len() ==> #[trigger] b[i] == a[i],
    ensures
        list_end(nodes, a) <= list_end(nodes, b),
{
    lemma_offset_prefix(nodes, a, b, a.len());
    lemma_offset_monotone(nodes, b, a.len(), b.len());
}

/// One more pointer moves the end of a list by the bytes of its node.
proof fn lemma_one_more_node(nodes: Seq<NodeRecord>, order: Seq<TriePtr>, p: TriePtr)
    ensures
        list_end(nodes, order.push(p)) == list_end(nodes, order) + node_bytes(nodes, p),
{
    lemma_offset_prefix(nodes, order, order.push(p), order.len());
    assert(order.push(p)[order.len() as int] == p);
}

/// A walk that is not over after `n` nodes does not fit if what it has listed
/// by then, and the first of the children that come next, do not.
proof fn lemma_too_long(trie: TrieRamView, n: nat, part: Seq<TriePtr>, limit: nat)
    requires
        forall|m: nat| m <= n ==> !#[trigger] walk_ends(trie.nodes, m),
        part.len() <= visit_order(trie.nodes, n + 1).len(),
        forall|i: int|
            0 <= i < part.len() ==> #[trigger] visit_order(trie.nodes, n + 1)[i] == part[i],
        list_end(trie.nodes, part) > u64::MAX,
    ensures
        !fits_by(trie, limit),
{
    assert forall|m: nat| m <= limit implies !#[trigger] walk_fits(trie, m) by {
        if m <= n {
            assert(!walk_ends(trie.nodes, m));
        } else {
            lemma_order_grows(trie.nodes, n + 1, m);
            assert forall|i: int| 0 <= i < part.len() implies #[trigger] visit_order(
                trie.nodes,
                m,
            )[i] == part[i] by {
                assert(visit_order(trie.nodes, n + 1)[i] == part[i]);
            }
            lemma_longer_list(trie.nodes, part, visit_order(trie.nodes, m));
        }
    }
}

impl TrieRAM {
    /// Whether a walk of the trie is over after at most `limit` nodes, and can
    /// be counted: if so, the trie can be written out.
    pub fn fits_within(&self, limit: usize) -> (fits: bool)
        ensures
            fits == fits_by(self@, limit as nat),
            fits ==> dumpable(self@),
    {
        let ghost nodes = self@.nodes;
        let root = TriePtr::new(TrieNodeID::Node256, 0, 0);
        let mut order: Vec<TriePtr> = Vec::new();
        let mut end: u64 = BLOCK_HEADER_HASH_ENCODED_SIZE as u64;
        let mut dangling: bool = false;
        proof {
            assert(order@ =~= Seq::<TriePtr>::empty());
            assert(visit_order(nodes, 0) == seq![root_ptr()]);
            assert(order@.push(root_ptr()) =~= visit_order(nodes, 0));
        }
        if !self.list(&mut order, &mut end, &mut dangling, root) {
            proof {
                assert forall|m: nat| m <= limit implies !#[trigger] walk_fits(self@, m) by {
                    lemma_order_grows(nodes, 0, m);
                    lemma_longer_list(nodes, visit_order(nodes, 0), visit_order(nodes, m));
                }
            }
            return false;
        }
        let mut n: usize = 0;
        loop
            invariant
                nodes == self@.nodes,
                n <= limit,
                order@ == visit_order(nodes, n as nat),
                end == list_end(nodes, order@),
                dangling == any_dangles(nodes, order@),
                forall|m: nat| m < n ==> !#[trigger] walk_ends(nodes, m),
            decreases limit - n,
        {
            if order.len() <= n || dangling {
                let fits = self.can_read_many(order.len() as u64);
                proof {
                    assert(walk_ends(nodes, n as nat));
                    if fits {
                        assert(walk_fits(self@, n as nat));
                    } else {
                        assert forall|m: nat| m <= limit implies !#[trigger] walk_fits(
                            self@,
                            m,
                        ) by {
                            if m < n {
                                assert(!walk_ends(nodes, m));
                            } else {
                                lemma_order_grows(nodes, n as nat, m);
                            }
                        }
                    }
                }
                return fits;
            }
            assert(!walk_ends(nodes, n as nat));
            if n == limit {
                return false;
            }
            let ghost before = order@;
            let ghost next = visit_order(nodes, n as nat + 1);
            let p: TriePtr = order[n];
            proof {
                assert(!dangles(nodes, before[n as int]));
            }
            let node = self.node_at(p.ptr as usize);
            if !node.is_leaf() {
                let ptrs = node.ptrs();
                let ghost slots = ptrs@;
                proof {
                    assert(slots.take(0) =~= Seq::<TriePtr>::empty());
                    reveal(Seq::filter);
                    assert(local_ptrs(slots.take(0)) =~= Seq::<TriePtr>::empty());
                    assert(before + local_ptrs(slots.take(0)) =~= before);
                }
                for slot in 0..ptrs.len()
                    invariant
                        nodes == self@.nodes,
                        n < limit,
                        slots == ptrs@,
                        next == before + local_ptrs(slots),
                        next == visit_order(nodes, n as nat + 1),
                        order@ == before + local_ptrs(slots.take(slot as int)),
                        end == list_end(nodes, order@),
                        dangling == any_dangles(nodes, order@),
                        forall|m: nat| m <= n ==> !#[trigger] walk_ends(nodes, m),
                {
                    let ghost so_far = order@;
                    proof {
                        lemma_local_step(slots, slot as int);
                        crate::dump::lemma_local_prefix(slots, slot + 1, slots.len() as int);
                        assert(slots.take(slots.len() as int) =~= slots);
                    }
                    if ptrs[slot].local() {
                        if !self.list(&mut order, &mut end, &mut dangling, ptrs[slot]) {
                            proof {
                                let part = so_far.push(slots[slot as int]);
                                assert(part =~= before + local_ptrs(slots.take(slot + 1)));
                                lemma_too_long(self@, n as nat, part, limit as nat);
                            }
                            return false;
                        }
                        assert(order@ =~= before + local_ptrs(slots.take(slot + 1)));
                    }
                }
                assert(slots.take(slots.len() as int) =~= slots);
            } else {
                proof {
                    reveal(Seq::filter);
                    assert(local_ptrs(nodes[p.ptr as int].node.ptrs) =~= Seq::<TriePtr>::empty());
                    assert(before + local_ptrs(nodes[p.ptr as int].node.ptrs) =~= before);
                }
            }
            n = n + 1;
        }
    }

    /// Puts a pointer at the end of a list, and moves the end of the file that
    /// the list takes, unless no integer of the machine can express it.
    fn list(&self, order: &mut Vec<TriePtr>, end: &mut u64, dangling: &mut bool, p: TriePtr) -> (fits:
        bool)
        requires
            *old(end) == list_end(self@.nodes, old(order)@),
            *old(dangling) == any_dangles(self@.nodes, old(order)@),
        ensures
            fits == (list_end(self@.nodes, old(order)@.push(p)) <= u64::MAX),
            fits ==> {
                &&& final(order)@ == old(order)@.push(p)
                &&& *final(end) == list_end(self@.nodes, final(order)@)
                &&& *final(dangling) == any_dangles(self@.nodes, final(order)@)
            },
    {
        let ghost nodes = self@.nodes;
        let ghost before = order@;
        proof {
            lemma_one_more_node(nodes, before, p);
        }
        let dangles_here = p.ptr as u64 >= self.len() as u64;
        if !dangles_here {
            let bytes: u64 = get_node_byte_len(self.node_at(p.ptr as usize)) as u64;
            if bytes > u64::MAX - *end {
                return false;
            }
            *end = *end + bytes;
        }
        order.push(p);
        proof {
            assert(order@[before.len() as int] == p);
            if any_dangles(nodes, before) {
                let i = choose|i: int| 0 <= i < before.len() && dangles(nodes, #[trigger] before[i]);
                assert(dangles(nodes, order@[i]));
            }
            if any_dangles(nodes, order@) && !dangles(nodes, p) {
                let i = choose|i: int| 0 <= i < order@.len() && dangles(nodes, #[trigger] order@[i]);
                assert(dangles(nodes, before[i]));
            }
        }
        *dangling = *dangling || dangles_here;
        true
    }
}

/// A trie that has a file of some number of nodes can be found to have one by
/// walking exactly as many, if the counters of reads have room for them.
pub proof fn law_trie_fits_by_its_nodes(
    trie: TrieRamView,
    plan: DumpPlan,
    parent: BlockHeaderHash,
    limit: nat,
)
    requires
        plan.lays_out(trie.nodes, parent),
    ensures
        fits_by(trie, limit) <==> {
            let n = plan.entries@.len();
            &&& n <= limit
            &&& trie.stats.read_count + n <= u64::MAX
            &&& trie.stats.read_backptr_count + n <= u64::MAX
            &&& trie.stats.read_node_count + n <= u64::MAX
            &&& trie.stats.read_leaf_count + n <= u64::MAX
        },
        fits_by(trie, limit) ==> dumpable(trie),
{
    let n = plan.entries@.len();
    let order = visit_order(trie.nodes, n);
    if fits_by(trie, limit) {
        let m = choose|m: nat| m <= limit && #[trigger] walk_fits(trie, m);
        lemma_complete_walk_is_sound(trie.nodes, n);
        assert(!any_dangles(trie.nodes, visit_order(trie.nodes, m)));
        if m <= n {
            lemma_order_settles(trie.nodes, m, n);
        } else {
            lemma_order_settles(trie.nodes, n, m);
        }
    }
    if n <= limit && trie.stats.read_room(n as int) {
        assert(walk_ends(trie.nodes, n));
        assert(walk_fits(trie, n));
    }
}

} // verus!
