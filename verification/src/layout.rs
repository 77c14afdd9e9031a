//! What holds of the file of a trie: its nodes are those of the trie in RAM,
//! and the pointers between them lead where they led there.
use vstd::prelude::*;
use crate::dump::{
    any_dangles, child_index, child_ptrs, dangles, file_offset, first_dangling, lemma_child_is_met, lemma_local_step, lemma_offset_monotone,
    lemma_order_grows, lemma_order_settles, local_ptrs, relocated_ptr, root_ptr,
    sound, visit_order, walk_ends, write_offset, DumpEntry, DumpPlan,
};
use crate::hash::{BlockHeaderHash, BLOCK_HEADER_HASH_ENCODED_SIZE};
use crate::node::{NodeRecord, TriePtr};
use crate::ram::TrieRamView;
use crate::stats::law_reads_keep_write_counts;

verus! {

/// The pointers that a walk meets are the root's and then, node by node in the
/// order in which the nodes were met, those to their children.
pub proof fn law_visit_is_breadth_first(nodes: Seq<NodeRecord>, n: nat)
    requires
        visit_order(nodes, n).len() == n,
    ensures
        visit_order(nodes, n) == seq![root_ptr()] + visit_order(nodes, n).flat_map(
            |p: TriePtr| child_ptrs(nodes, p),
        ),
{
    lemma_met_so_far(nodes, n, n);
    assert(visit_order(nodes, n).take(n as int) =~= visit_order(nodes, n));
}

/// What was met after `k` nodes is the root and the children of these.
proof fn lemma_met_so_far(nodes: Seq<NodeRecord>, n: nat, k: nat)
    requires
        visit_order(nodes, n).len() == n,
        k <= n,
    ensures
        visit_order(nodes, k) == seq![root_ptr()] + visit_order(nodes, n).take(k as int).flat_map(
            |p: TriePtr| child_ptrs(nodes, p),
        ),
    decreases k,
{
    let f = |p: TriePtr| child_ptrs(nodes, p);
    let order = visit_order(nodes, n);
    if k == 0 {
        assert(order.take(0) =~= Seq::<TriePtr>::empty());
        assert(order.take(0).map_values(f) =~= Seq::<Seq<TriePtr>>::empty());
        assert(order.take(0).flat_map(f) =~= Seq::<TriePtr>::empty());
    } else {
        let j = (k - 1) as nat;
        lemma_met_so_far(nodes, n, j);
        lemma_order_grows(nodes, j, n);
        if j >= visit_order(nodes, j).len() {
            lemma_order_settles(nodes, j, n);
        }
        assert(visit_order(nodes, j)[j as int] == order[j as int]);
        order.lemma_flat_map_take_append(f, j as int);
        assert(visit_order(nodes, k) =~= seq![root_ptr()] + order.take(k as int).flat_map(f));
    }
}

/// In the file, a pointer to a node of the same trie leads to where the file
/// holds the node that the pointer led to in RAM.
pub proof fn law_pointers_lead_to_children(
    plan: DumpPlan,
    nodes: Seq<NodeRecord>,
    parent: BlockHeaderHash,
    j: int,
    slot: int,
)
    requires
        plan.lays_out(nodes, parent),
        0 <= j < plan.entries@.len(),
        0 <= slot < plan.entries@[j].node@.ptrs.len(),
        plan.entries@[j].node@.ptrs[slot].is_local(),
    ensures
        ({
            let order = visit_order(nodes, plan.entries@.len());
            let ptrs = nodes[order[j].ptr as int].node.ptrs;
            let c = child_index(nodes, j as nat, ptrs, slot) as int;
            &&& ptrs[slot].is_local()
            &&& 0 < c < plan.entries@.len()
            &&& order[c] == ptrs[slot]
            &&& plan.entries@[c].at == plan.entries@[j].node@.ptrs[slot].ptr
            &&& plan.entries@[c].hash == nodes[ptrs[slot].ptr as int].hash
        }),
{
    let order = visit_order(nodes, plan.entries@.len());
    assert(!dangles(nodes, order[j]));
    let entry = plan.entries@[j];
    let ptrs = nodes[order[j].ptr as int].node.ptrs;
    assert(entry.node@.ptrs[slot] == relocated_ptr(nodes, order, j as nat, ptrs, slot));
    lemma_child_is_met(nodes, plan.entries@.len(), j as nat, slot);
}

/// In the file, each node starts where the one before it ends, the first one
/// behind the parent's hash, and the last one ends where the file does.
pub proof fn law_nodes_tile_the_file(
    plan: DumpPlan,
    nodes: Seq<NodeRecord>,
    parent: BlockHeaderHash,
    j: int,
)
    requires
        plan.lays_out(nodes, parent),
        plan.end <= u32::MAX,
        0 <= j < plan.entries@.len(),
    ensures
        plan.entries@[0].at == BLOCK_HEADER_HASH_ENCODED_SIZE,
        plan.entries@[j].at + plan.entries@[j].node@.byte_len == if j + 1 < plan.entries@.len() {
            plan.entries@[j + 1].at
        } else {
            plan.end
        },
{
    let order = visit_order(nodes, plan.entries@.len());
    let entry = plan.entries@[j];
    assert(plan.entries@[0].at == BLOCK_HEADER_HASH_ENCODED_SIZE);
    assert(!dangles(nodes, order[j]));
    lemma_offset_monotone(nodes, order, j as nat, plan.entries@.len());
    lemma_offset_monotone(nodes, order, (j + 1) as nat, plan.entries@.len());
    if j + 1 < plan.entries@.len() {
        assert(plan.entries@[j + 1].at == write_offset(nodes, order, (j + 1) as nat));
    }
}

/// Whether pointer slot `slot` of the node at place `from` leads to place `to`.
pub open spec fn step_in_ram(nodes: Seq<NodeRecord>, from: int, slot: int, to: int) -> bool {
    let ptrs = nodes[from].node.ptrs;
    &&& 0 <= slot < ptrs.len()
    &&& ptrs[slot].is_local()
    &&& ptrs[slot].ptr == to
    &&& to < nodes.len()
}

/// Whether a path of pointer slots, followed from the root in RAM, goes over the given places.
pub open spec fn route_in_ram(nodes: Seq<NodeRecord>, path: Seq<int>, places: Seq<int>) -> bool {
    &&& places.len() == path.len() + 1
    &&& nodes.len() > 0
    &&& places[0] == 0
    &&& forall|i: int|
        0 <= i < path.len() ==> step_in_ram(nodes, places[i], #[trigger] path[i], places[i + 1])
}

/// Whether pointer slot `slot` of entry `from` of the file leads to entry `to`.
pub open spec fn step_in_file(plan: DumpPlan, from: int, slot: int, to: int) -> bool {
    let ptrs = plan.entries@[from].node@.ptrs;
    &&& 0 <= slot < ptrs.len()
    &&& ptrs[slot].is_local()
    &&& 0 <= to < plan.entries@.len()
    &&& ptrs[slot].ptr == plan.entries@[to].at
}

/// Whether a path of pointer slots, followed from the root in the file, goes
/// over the given entries.
pub open spec fn route_in_file(plan: DumpPlan, path: Seq<int>, stops: Seq<int>) -> bool {
    &&& stops.len() == path.len() + 1
    &&& 0 <= stops[0] < plan.entries@.len()
    &&& plan.entries@[stops[0]].at == BLOCK_HEADER_HASH_ENCODED_SIZE
    &&& forall|i: int|
        0 <= i < path.len() ==> step_in_file(plan, stops[i], #[trigger] path[i], stops[i + 1])
}

/// Whether the entries of the file that a list names hold the nodes at the
/// places in RAM that another list names.
pub open spec fn same_nodes(
    plan: DumpPlan,
    nodes: Seq<NodeRecord>,
    stops: Seq<int>,
    places: Seq<int>,
) -> bool {
    &&& stops.len() == places.len()
    &&& forall|i: int|
        0 <= i < stops.len() ==> holds_node(
            plan.entries@[#[trigger] stops[i]],
            nodes[places[i]],
        )
}

/// Whether an entry of the file holds the node at a place in RAM: the same
/// kind, body and hash, and the same pointers but for where the local ones lead.
pub open spec fn holds_node(entry: DumpEntry, record: NodeRecord) -> bool {
    &&& entry.hash == record.hash
    &&& entry.node@.id == record.node.id
    &&& entry.node@.body == record.node.body
    &&& entry.node@.byte_len == record.node.byte_len
    &&& entry.node@.ptrs.len() == record.node.ptrs.len()
    &&& forall|s: int|
        0 <= s < record.node.ptrs.len() ==> (#[trigger] entry.node@.ptrs[s]) == (TriePtr {
            ptr: if record.node.ptrs[s].is_local() {
                entry.node@.ptrs[s].ptr
            } else {
                record.node.ptrs[s].ptr
            },
            ..record.node.ptrs[s]
        })
}

/// An entry holds the node that was visited at its place in the order.
proof fn lemma_entry_holds_node(
    plan: DumpPlan,
    nodes: Seq<NodeRecord>,
    parent: BlockHeaderHash,
    j: int,
)
    requires
        plan.lays_out(nodes, parent),
        0 <= j < plan.entries@.len(),
    ensures
        ({
            let p = visit_order(nodes, plan.entries@.len())[j];
            !dangles(nodes, p) && holds_node(plan.entries@[j], nodes[p.ptr as int])
        }),
{
    let order = visit_order(nodes, plan.entries@.len());
    assert(!dangles(nodes, order[j]));
    let entry = plan.entries@[j];
    let ptrs = nodes[order[j].ptr as int].node.ptrs;
    assert forall|s: int| 0 <= s < ptrs.len() implies (#[trigger] entry.node@.ptrs[s]) == (
    TriePtr {
        ptr: if ptrs[s].is_local() {
            entry.node@.ptrs[s].ptr
        } else {
            ptrs[s].ptr
        },
        ..ptrs[s]
    }) by {
        assert(entry.node@.ptrs[s] == relocated_ptr(nodes, order, j as nat, ptrs, s));
    }
}

/// Every path that can be followed in RAM can be followed over the entries of
/// the file, which hold the same nodes. No entry is written over another as
/// long as no offset outgrows a pointer: then each starts where the one before ends.
pub proof fn law_file_keeps_every_path(
    plan: DumpPlan,
    nodes: Seq<NodeRecord>,
    parent: BlockHeaderHash,
    path: Seq<int>,
    places: Seq<int>,
)
    requires
        plan.lays_out(nodes, parent),
        route_in_ram(nodes, path, places),
    ensures
        exists|stops: Seq<int>| #[trigger]
            route_in_file(plan, path, stops) && same_nodes(plan, nodes, stops, places),
{
    let stops = lemma_path_in_file(plan, nodes, parent, path, places);
    assert forall|i: int| 0 <= i < stops.len() implies holds_node(
        plan.entries@[#[trigger] stops[i]],
        nodes[places[i]],
    ) by {
        lemma_entry_holds_node(plan, nodes, parent, stops[i]);
    }
}

/// The entries over which the file's version of a route in RAM goes.
proof fn lemma_path_in_file(
    plan: DumpPlan,
    nodes: Seq<NodeRecord>,
    parent: BlockHeaderHash,
    path: Seq<int>,
    places: Seq<int>,
) -> (stops: Seq<int>)
    requires
        plan.lays_out(nodes, parent),
        route_in_ram(nodes, path, places),
    ensures
        route_in_file(plan, path, stops),
        stops.len() == places.len(),
        forall|i: int|
            0 <= i < stops.len() ==> 0 <= #[trigger] stops[i] < plan.entries@.len()
                && visit_order(nodes, plan.entries@.len())[stops[i]].ptr == places[i],
    decreases path.len(),
{
    let order = visit_order(nodes, plan.entries@.len());
    lemma_order_grows(nodes, 0, plan.entries@.len());
    if path.len() == 0 {
        assert(plan.entries@[0].at == write_offset(nodes, order, 0));
        assert(order[0] == visit_order(nodes, 0)[0]);
        seq![0int]
    } else {
        let shorter = path.drop_last();
        let slot = path.last();
        let last = path.len() - 1;
        assert(route_in_ram(nodes, shorter, places.drop_last())) by {
            assert forall|i: int| 0 <= i < shorter.len() implies step_in_ram(
                nodes,
                places.drop_last()[i],
                #[trigger] shorter[i],
                places.drop_last()[i + 1],
            ) by {
                assert(shorter[i] == path[i]);
            }
        }
        let before = lemma_path_in_file(plan, nodes, parent, shorter, places.drop_last());
        let from = before[last];
        assert(step_in_ram(nodes, places[last], path[last], places[last + 1]));
        lemma_entry_holds_node(plan, nodes, parent, from);
        assert(plan.entries@[from].node@.ptrs[slot].is_local());
        law_pointers_lead_to_children(plan, nodes, parent, from, slot);
        let c = child_index(nodes, from as nat, nodes[places[last]].node.ptrs, slot) as int;
        let stops = before.push(c);
        assert(step_in_file(plan, from, slot, c));
        assert forall|i: int| 0 <= i < path.len() implies step_in_file(
            plan,
            stops[i],
            #[trigger] path[i],
            stops[i + 1],
        ) by {
            if i < last {
                assert(shorter[i] == path[i]);
            }
        }
        stops
    }
}

/// Different entries are at different offsets.
proof fn lemma_offsets_distinct(
    plan: DumpPlan,
    nodes: Seq<NodeRecord>,
    parent: BlockHeaderHash,
    i: int,
    j: int,
)
    requires
        plan.lays_out(nodes, parent),
        plan.end <= u32::MAX,
        forall|k: int| 0 <= k < nodes.len() ==> (#[trigger] nodes[k]).node.byte_len > 0,
        0 <= i < j < plan.entries@.len(),
    ensures
        plan.entries@[i].at < plan.entries@[j].at,
    decreases j - i,
{
    law_nodes_tile_the_file(plan, nodes, parent, i);
    lemma_entry_holds_node(plan, nodes, parent, i);
    if i + 1 < j {
        lemma_offsets_distinct(plan, nodes, parent, i + 1, j);
    }
}

/// Every path that can be followed in the file can be followed in RAM, over
/// the same nodes, as long as no offset in the file outgrows a pointer and
/// every node takes some room.
pub proof fn law_file_adds_no_path(
    plan: DumpPlan,
    nodes: Seq<NodeRecord>,
    parent: BlockHeaderHash,
    path: Seq<int>,
    stops: Seq<int>,
)
    requires
        plan.lays_out(nodes, parent),
        plan.end <= u32::MAX,
        forall|k: int| 0 <= k < nodes.len() ==> (#[trigger] nodes[k]).node.byte_len > 0,
        route_in_file(plan, path, stops),
    ensures
        exists|places: Seq<int>| #[trigger]
            route_in_ram(nodes, path, places) && same_nodes(plan, nodes, stops, places),
{
    let order = visit_order(nodes, plan.entries@.len());
    let places = Seq::new(stops.len(), |i: int| order[stops[i]].ptr as int);
    lemma_order_grows(nodes, 0, plan.entries@.len());
    assert(order[0] == visit_order(nodes, 0)[0]);
    assert(!dangles(nodes, order[0]));
    assert(plan.entries@[0].at == write_offset(nodes, order, 0));
    if stops[0] > 0 {
        lemma_offsets_distinct(plan, nodes, parent, 0, stops[0]);
    }
    assert forall|i: int| 0 <= i < stops.len() implies 0 <= #[trigger] stops[i]
        < plan.entries@.len() by {
        if i > 0 {
            assert(step_in_file(plan, stops[i - 1], path[i - 1], stops[i]));
        }
    }
    assert forall|i: int| 0 <= i < path.len() implies step_in_ram(
        nodes,
        places[i],
        #[trigger] path[i],
        places[i + 1],
    ) by {
        let from = stops[i];
        let to = stops[i + 1];
        assert(step_in_file(plan, from, path[i], to));
        law_pointers_lead_to_children(plan, nodes, parent, from, path[i]);
        lemma_entry_holds_node(plan, nodes, parent, from);
        lemma_entry_holds_node(plan, nodes, parent, to);
        let c = child_index(nodes, from as nat, nodes[order[from].ptr as int].node.ptrs, path[i]) as int;
        if c < to {
            lemma_offsets_distinct(plan, nodes, parent, c, to);
        } else if to < c {
            lemma_offsets_distinct(plan, nodes, parent, to, c);
        }
    }
    assert forall|i: int| 0 <= i < stops.len() implies holds_node(
        plan.entries@[#[trigger] stops[i]],
        nodes[places[i]],
    ) by {
        lemma_entry_holds_node(plan, nodes, parent, stops[i]);
    }
    assert(route_in_ram(nodes, path, places));
}

/// Whether two plans are for the same file: the same parent, the same end, and
/// the same nodes with the same hashes at the same offsets.
pub open spec fn same_plan(a: DumpPlan, b: DumpPlan) -> bool {
    &&& a.parent == b.parent
    &&& a.end == b.end
    &&& a.entries@.len() == b.entries@.len()
    &&& forall|j: int|
        #![trigger a.entries@[j]]
        #![trigger b.entries@[j]]
        0 <= j < a.entries@.len() ==> {
            &&& a.entries@[j].at == b.entries@[j].at
            &&& a.entries@[j].node@ == b.entries@[j].node@
            &&& a.entries@[j].hash == b.entries@[j].hash
        }
}

/// There is only one file for a trie and a parent block.
pub proof fn law_plan_is_unique(
    a: DumpPlan,
    b: DumpPlan,
    nodes: Seq<NodeRecord>,
    parent: BlockHeaderHash,
)
    requires
        a.lays_out(nodes, parent),
        b.lays_out(nodes, parent),
    ensures
        same_plan(a, b),
{
    let m = a.entries@.len();
    let n = b.entries@.len();
    if m <= n {
        lemma_order_settles(nodes, m, n);
    } else {
        lemma_order_settles(nodes, n, m);
    }
}

/// Planning the file of a trie leaves the trie as it is, whether it succeeds or
/// fails: only reads are counted. The pointers lead where they led, in RAM, and
/// a plan that is made afterwards is the same.
pub proof fn law_dump_can_be_repeated(
    before: TrieRamView,
    read: Seq<TriePtr>,
    after: TrieRamView,
    parent: BlockHeaderHash,
)
    requires
        after == (TrieRamView { stats: before.stats.after_reads(read), ..before }),
    ensures
        after.next_place() == before.next_place(),
        forall|p: TriePtr| #[trigger] after.lookup(p) == before.lookup(p),
        after.stats.write_count == before.stats.write_count,
        after.stats.write_node_count == before.stats.write_node_count,
        after.stats.write_leaf_count == before.stats.write_leaf_count,
        forall|first: DumpPlan, second: DumpPlan|
            first.lays_out(before.nodes, parent) && second.lays_out(after.nodes, parent)
                ==> #[trigger] same_plan(first, second),
{
    law_reads_keep_write_counts(before.stats, read);
    assert forall|first: DumpPlan, second: DumpPlan|
        first.lays_out(before.nodes, parent) && second.lays_out(
            after.nodes,
            parent,
        ) implies #[trigger] same_plan(first, second) by {
        law_plan_is_unique(first, second, before.nodes, parent);
    }
}

/// Whether following pointers to nodes of the same trie always leads strictly downhill.
pub open spec fn descends(nodes: Seq<NodeRecord>, height: spec_fn(int) -> nat) -> bool {
    forall|place: int, slot: int|
        #![trigger nodes[place].node.ptrs[slot]]
        0 <= place < nodes.len() && 0 <= slot < nodes[place].node.ptrs.len()
            && nodes[place].node.ptrs[slot].is_local() ==> height(
            nodes[place].node.ptrs[slot].ptr as int,
        ) < height(place)
}

/// How many pointers a walk meets from `p` on, `p` itself among them, if it
/// goes down at most `depth` levels.
spec fn walk_size(nodes: Seq<NodeRecord>, p: TriePtr, depth: nat) -> nat
    decreases depth, 0nat,
{
    if depth == 0 {
        1
    } else {
        1 + walk_sizes(nodes, child_ptrs(nodes, p), (depth - 1) as nat)
    }
}

/// How many pointers a walk meets from some pointers on.
spec fn walk_sizes(nodes: Seq<NodeRecord>, ptrs: Seq<TriePtr>, depth: nat) -> nat
    decreases depth, ptrs.len() + 1,
{
    if ptrs.len() == 0 {
        0
    } else {
        walk_sizes(nodes, ptrs.drop_last(), depth) + walk_size(nodes, ptrs.last(), depth)
    }
}

proof fn lemma_walk_sizes_add(nodes: Seq<NodeRecord>, a: Seq<TriePtr>, b: Seq<TriePtr>, depth: nat)
    ensures
        walk_sizes(nodes, a + b, depth) == walk_sizes(nodes, a, depth) + walk_sizes(nodes, b, depth),
    decreases b.len(),
{
    if b.len() == 0 {
        assert(a + b =~= a);
    } else {
        assert((a + b).drop_last() =~= a + b.drop_last());
        lemma_walk_sizes_add(nodes, a, b.drop_last(), depth);
    }
}

/// The slot that a local pointer is in.
proof fn lemma_local_source(ptrs: Seq<TriePtr>, count: int, i: int) -> (slot: int)
    requires
        0 <= count <= ptrs.len(),
        0 <= i < local_ptrs(ptrs.take(count)).len(),
    ensures
        0 <= slot < count,
        ptrs[slot].is_local(),
        local_ptrs(ptrs.take(count))[i] == ptrs[slot],
    decreases count,
{
    if count == 0 {
        reveal(Seq::filter);
        assert(false);
        0
    } else {
        lemma_local_step(ptrs, count - 1);
        if i < local_ptrs(ptrs.take(count - 1)).len() {
            lemma_local_source(ptrs, count - 1, i)
        } else {
            count - 1
        }
    }
}

/// The children of a node lie lower than the node.
proof fn lemma_children_lower(
    nodes: Seq<NodeRecord>,
    height: spec_fn(int) -> nat,
    p: TriePtr,
    i: int,
)
    requires
        descends(nodes, height),
        0 <= i < child_ptrs(nodes, p).len(),
    ensures
        height(child_ptrs(nodes, p)[i].ptr as int) < height(p.ptr as int),
{
    let ptrs = nodes[p.ptr as int].node.ptrs;
    assert(ptrs.take(ptrs.len() as int) =~= ptrs);
    let slot = lemma_local_source(ptrs, ptrs.len() as int, i);
    assert(nodes[p.ptr as int].node.ptrs[slot].is_local());
}

/// Going deeper than a node is high finds nothing more.
proof fn lemma_walk_size_stable(
    nodes: Seq<NodeRecord>,
    height: spec_fn(int) -> nat,
    p: TriePtr,
    depth: nat,
)
    requires
        descends(nodes, height),
        height(p.ptr as int) <= depth,
    ensures
        walk_size(nodes, p, depth + 1) == walk_size(nodes, p, depth),
    decreases depth, 0nat,
{
    let children = child_ptrs(nodes, p);
    if depth == 0 {
        if children.len() > 0 {
            lemma_children_lower(nodes, height, p, 0);
        }
        assert(walk_size(nodes, p, 1) == 1 + walk_sizes(nodes, children, 0));
    } else {
        assert forall|i: int| 0 <= i < children.len() implies height(
            (#[trigger] children[i]).ptr as int,
        ) <= depth - 1 by {
            lemma_children_lower(nodes, height, p, i);
        }
        lemma_walk_sizes_stable(nodes, height, children, (depth - 1) as nat);
    }
}

proof fn lemma_walk_sizes_stable(
    nodes: Seq<NodeRecord>,
    height: spec_fn(int) -> nat,
    ptrs: Seq<TriePtr>,
    depth: nat,
)
    requires
        descends(nodes, height),
        forall|i: int| 0 <= i < ptrs.len() ==> height((#[trigger] ptrs[i]).ptr as int) <= depth,
    ensures
        walk_sizes(nodes, ptrs, depth + 1) == walk_sizes(nodes, ptrs, depth),
    decreases depth, ptrs.len() + 1,
{
    if ptrs.len() > 0 {
        lemma_walk_sizes_stable(nodes, height, ptrs.drop_last(), depth);
        lemma_walk_size_stable(nodes, height, ptrs.last(), depth);
    }
}

/// Each node that is visited leaves one pointer fewer to meet.
proof fn lemma_walk_progress(nodes: Seq<NodeRecord>, height: spec_fn(int) -> nat, n: nat)
    requires
        descends(nodes, height),
    ensures
        forall|i: int|
            0 <= i < visit_order(nodes, n).len() ==> height(
                (#[trigger] visit_order(nodes, n)[i]).ptr as int,
            ) <= height(0),
        visit_order(nodes, n).len() <= n || n + walk_sizes(
            nodes,
            visit_order(nodes, n).skip(n as int),
            height(0),
        ) == walk_size(nodes, root_ptr(), height(0)),
    decreases n,
{
    let top = height(0);
    let order = visit_order(nodes, n);
    if n == 0 {
        assert(order.skip(0) =~= seq![root_ptr()]);
        assert(order.skip(0).drop_last() =~= Seq::<TriePtr>::empty());
        assert(walk_sizes(nodes, order.skip(0).drop_last(), top) == 0);
    } else {
        let k = (n - 1) as nat;
        lemma_walk_progress(nodes, height, k);
        let before = visit_order(nodes, k);
        if k < before.len() {
            let p = before[k as int];
            let children = child_ptrs(nodes, p);
            assert forall|i: int| 0 <= i < order.len() implies height(
                (#[trigger] order[i]).ptr as int,
            ) <= top by {
                if i < before.len() {
                    assert(order[i] == before[i]);
                } else {
                    lemma_children_lower(nodes, height, p, i - before.len());
                }
            }
            assert forall|i: int| 0 <= i < children.len() implies height(
                (#[trigger] children[i]).ptr as int,
            ) <= top - 1 by {
                lemma_children_lower(nodes, height, p, i);
            }
            assert(before.skip(k as int) =~= seq![p] + before.skip(n as int));
            lemma_walk_sizes_add(nodes, seq![p], before.skip(n as int), top);
            assert(seq![p].drop_last() =~= Seq::<TriePtr>::empty());
            assert(walk_sizes(nodes, seq![p].drop_last(), top) == 0);
            assert(walk_sizes(nodes, seq![p], top) == walk_size(nodes, p, top));
            assert(order.skip(n as int) =~= before.skip(n as int) + children);
            lemma_walk_sizes_add(nodes, before.skip(n as int), children, top);
            if top == 0 {
                if children.len() > 0 {
                    lemma_children_lower(nodes, height, p, 0);
                }
                assert(children =~= Seq::<TriePtr>::empty());
            } else {
                lemma_walk_sizes_stable(nodes, height, children, (top - 1) as nat);
            }
        } else {
            assert(order == before);
        }
    }
}

/// A trie in which no pointers lead in a circle can be walked to the end: there
/// is a height for every place such that each pointer to a node of the same
/// trie leads from a higher place to a lower one.
pub proof fn law_walk_without_circle_ends(nodes: Seq<NodeRecord>, height: spec_fn(int) -> nat)
    requires
        descends(nodes, height),
    ensures
        exists|n: nat| #[trigger] walk_ends(nodes, n),
{
    let n = walk_size(nodes, root_ptr(), height(0));
    lemma_walk_progress(nodes, height, n);
    let rest = visit_order(nodes, n).skip(n as int);
    if visit_order(nodes, n).len() > n {
        assert(rest.len() > 0);
        assert(walk_sizes(nodes, rest, height(0)) == 0);
        assert(walk_size(nodes, rest.last(), height(0)) >= 1);
    }
    assert(walk_ends(nodes, n));
}

/// Whether an entry of the file holds a node of the trie in RAM: the same kind,
/// body, length and hash, and the same pointers, but for where those lead whose
/// tag is not empty and has no back-pointer mark.
pub open spec fn copies_node(entry: DumpEntry, record: NodeRecord) -> bool {
    &&& entry.hash == record.hash
    &&& entry.node@.id == record.node.id
    &&& entry.node@.body == record.node.body
    &&& entry.node@.byte_len == record.node.byte_len
    &&& entry.node@.ptrs.len() == record.node.ptrs.len()
    &&& forall|s: int|
        0 <= s < record.node.ptrs.len() ==> {
            let from = #[trigger] record.node.ptrs[s];
            let to = entry.node@.ptrs[s];
            &&& to.id == from.id
            &&& to.chr == from.chr
            &&& to.back_block == from.back_block
            &&& !(0 < from.id < 0x80) ==> to.ptr == from.ptr
        }
}

/// Whether the `j`-th entry of the file has a slot `s`, and its tag is not
/// empty and has no back-pointer mark.
pub open spec fn has_child(plan: DumpPlan, j: int, s: int) -> bool {
    &&& 0 <= j < plan.entries@.len()
    &&& 0 <= s < plan.entries@[j].node@.ptrs.len()
    &&& 0 < plan.entries@[j].node@.ptrs[s].id < 0x80
}

/// Whether some slot that has a child has the `c`-th entry as its child.
pub open spec fn is_child(plan: DumpPlan, child: spec_fn(int, int) -> int, c: int) -> bool {
    exists|j: int, s: int| #[trigger] has_child(plan, j, s) && child(j, s) == c
}

/// The slot whose pointer is the one that a walk meets at place `c`.
proof fn lemma_source_of(nodes: Seq<NodeRecord>, n: nat, k: nat, c: int) -> (source: (int, int))
    requires
        visit_order(nodes, n).len() == n,
        !any_dangles(nodes, visit_order(nodes, n)),
        k <= n,
        0 < c < visit_order(nodes, k).len(),
    ensures
        0 <= source.0 < k,
        ({
            let ptrs = nodes[visit_order(nodes, n)[source.0].ptr as int].node.ptrs;
            &&& 0 <= source.1 < ptrs.len()
            &&& ptrs[source.1].is_local()
            &&& child_index(nodes, source.0 as nat, ptrs, source.1) == c
        }),
    decreases k,
{
    if k == 0 {
        (0, 0)
    } else {
        let j = (k - 1) as nat;
        let before = visit_order(nodes, j);
        if c < before.len() {
            lemma_source_of(nodes, n, j, c)
        } else {
            lemma_order_grows(nodes, j, n);
            if j >= before.len() {
                lemma_order_settles(nodes, j, n);
            }
            let p = visit_order(nodes, n)[j as int];
            assert(before[j as int] == p);
            let ptrs = nodes[p.ptr as int].node.ptrs;
            assert(!dangles(nodes, p));
            assert(ptrs.take(ptrs.len() as int) =~= ptrs);
            let slot = lemma_local_slot(ptrs, ptrs.len() as int, c - before.len());
            (j as int, slot)
        }
    }
}

/// The slot that the `i`-th local pointer is in.
proof fn lemma_local_slot(ptrs: Seq<TriePtr>, count: int, i: int) -> (slot: int)
    requires
        0 <= count <= ptrs.len(),
        0 <= i < local_ptrs(ptrs.take(count)).len(),
    ensures
        0 <= slot < count,
        ptrs[slot].is_local(),
        local_ptrs(ptrs.take(slot)).len() == i,
    decreases count,
{
    if count == 0 {
        reveal(Seq::filter);
        assert(false);
        0
    } else {
        lemma_local_step(ptrs, count - 1);
        if i < local_ptrs(ptrs.take(count - 1)).len() {
            lemma_local_slot(ptrs, count - 1, i)
        } else {
            count - 1
        }
    }
}

/// Of two slots with children, the one that comes first has the child that
/// comes first.
proof fn lemma_children_in_order(
    nodes: Seq<NodeRecord>,
    n: nat,
    j: int,
    s: int,
    j2: int,
    s2: int,
)
    requires
        visit_order(nodes, n).len() == n,
        !any_dangles(nodes, visit_order(nodes, n)),
        0 <= j <= j2 < n,
        j == j2 ==> s < s2,
        ({
            let ptrs = nodes[visit_order(nodes, n)[j].ptr as int].node.ptrs;
            0 <= s < ptrs.len() && ptrs[s].is_local()
        }),
        ({
            let ptrs = nodes[visit_order(nodes, n)[j2].ptr as int].node.ptrs;
            0 <= s2 < ptrs.len() && ptrs[s2].is_local()
        }),
    ensures
        child_index(nodes, j as nat, nodes[visit_order(nodes, n)[j].ptr as int].node.ptrs, s)
            < child_index(
            nodes,
            j2 as nat,
            nodes[visit_order(nodes, n)[j2].ptr as int].node.ptrs,
            s2,
        ),
{
    let order = visit_order(nodes, n);
    let ptrs = nodes[order[j].ptr as int].node.ptrs;
    lemma_local_step(ptrs, s);
    if j == j2 {
        crate::dump::lemma_local_prefix(ptrs, s + 1, s2);
    } else {
        let before = visit_order(nodes, j as nat);
        lemma_order_grows(nodes, j as nat, n);
        if j >= before.len() {
            lemma_order_settles(nodes, j as nat, n);
        }
        assert(before[j] == order[j]);
        assert(!dangles(nodes, order[j]));
        assert(visit_order(nodes, (j + 1) as nat) == before + local_ptrs(ptrs));
        lemma_order_grows(nodes, (j + 1) as nat, j2 as nat);
        crate::dump::lemma_local_prefix(ptrs, s + 1, ptrs.len() as int);
        assert(ptrs.take(ptrs.len() as int) =~= ptrs);
    }
}

/// The file holds the whole trie that can be reached from the root, breadth
/// first. Every entry is a copy of a node in RAM, the first one of the root, at
/// offset 32. Every slot whose tag `id` is such that `0 < id < 0x80`, whatever
/// kind of node it leads to, leads to the offset of the entry that holds the
/// node which the slot led to in RAM. The entries behind the first are those to
/// which such slots lead, one for each, in the order of the slots. The walk reads
/// the root, and then the child of each such slot through its pointer.
#[verifier::spinoff_prover]
#[verifier::rlimit(40)]
pub proof fn law_file_holds_the_whole_trie(
    plan: DumpPlan,
    nodes: Seq<NodeRecord>,
    parent: BlockHeaderHash,
) -> (held: (Seq<int>, spec_fn(int, int) -> int))
    requires
        plan.lays_out(nodes, parent),
    ensures
        plan.parent == parent,
        held.0.len() == plan.entries@.len(),
        plan.entries@.len() > 0,
        held.0[0] == 0,
        plan.entries@[0].at == 32,
        forall|j: int|
            0 <= j < plan.entries@.len() ==> 0 <= #[trigger] held.0[j] < nodes.len()
                && copies_node(plan.entries@[j], nodes[held.0[j]]),
        forall|j: int, s: int| #[trigger]
            has_child(plan, j, s) ==> {
                let c = (held.1)(j, s);
                &&& j < c < plan.entries@.len()
                &&& plan.entries@[c].at == plan.entries@[j].node@.ptrs[s].ptr
                &&& held.0[c] == nodes[held.0[j]].node.ptrs[s].ptr
            },
        forall|j: int, s: int, j2: int, s2: int|
            #![trigger has_child(plan, j, s), has_child(plan, j2, s2)]
            has_child(plan, j, s) && has_child(plan, j2, s2) && (j < j2 || j == j2 && s < s2)
                ==> (held.1)(j, s) < (held.1)(j2, s2),
        forall|c: int| 0 < c < plan.entries@.len() ==> #[trigger] is_child(plan, held.1, c),
        visit_order(nodes, plan.entries@.len()).len() == plan.entries@.len(),
        visit_order(nodes, plan.entries@.len())[0].id == 5,
        forall|j: int, s: int| #[trigger]
            has_child(plan, j, s) ==> visit_order(nodes, plan.entries@.len())[(held.1)(j, s)]
                == nodes[held.0[j]].node.ptrs[s],
{
    let n = plan.entries@.len();
    let order = visit_order(nodes, n);
    let places = Seq::new(n, |j: int| order[j].ptr as int);
    let child = |j: int, s: int|
        child_index(nodes, j as nat, nodes[order[j].ptr as int].node.ptrs, s) as int;
    lemma_order_grows(nodes, 0, n);
    assert(visit_order(nodes, 0)[0] == root_ptr());
    assert(order[0] == root_ptr());
    assert(plan.entries@[0].at == write_offset(nodes, order, 0));
    assert forall|j: int| 0 <= j < n implies 0 <= #[trigger] places[j] < nodes.len()
        && copies_node(plan.entries@[j], nodes[places[j]]) by {
        lemma_entry_holds_node(plan, nodes, parent, j);
        assert(!dangles(nodes, order[j]));
        let entry = plan.entries@[j];
        let ptrs = nodes[places[j]].node.ptrs;
        assert forall|s: int| 0 <= s < ptrs.len() implies {
            let from = #[trigger] ptrs[s];
            let to = entry.node@.ptrs[s];
            &&& to.id == from.id
            &&& to.chr == from.chr
            &&& to.back_block == from.back_block
            &&& !(0 < from.id < 0x80) ==> to.ptr == from.ptr
        } by {
            assert(entry.node@.ptrs[s] == relocated_ptr(nodes, order, j as nat, ptrs, s));
        }
    }
    assert forall|j: int, s: int| #[trigger] has_child(plan, j, s) implies {
        let c = child(j, s);
        &&& j < c < n
        &&& plan.entries@[c].at == plan.entries@[j].node@.ptrs[s].ptr
        &&& places[c] == nodes[places[j]].node.ptrs[s].ptr
        &&& order[c] == nodes[places[j]].node.ptrs[s]
    } by {
        assert(0 <= places[j] < nodes.len() && copies_node(plan.entries@[j], nodes[places[j]]));
        law_pointers_lead_to_children(plan, nodes, parent, j, s);
        lemma_order_grows(nodes, j as nat, n);
        if visit_order(nodes, j as nat).len() <= j {
            lemma_order_settles(nodes, j as nat, n);
        }
    }
    assert forall|j: int, s: int, j2: int, s2: int|
        #![trigger has_child(plan, j, s), has_child(plan, j2, s2)]
        has_child(plan, j, s) && has_child(plan, j2, s2) && (j < j2 || j == j2 && s
            < s2) implies child(j, s) < child(j2, s2) by {
        assert(0 <= places[j] < nodes.len() && copies_node(plan.entries@[j], nodes[places[j]]));
        assert(0 <= places[j2] < nodes.len() && copies_node(plan.entries@[j2], nodes[places[j2]]));
        assert(nodes[places[j]].node.ptrs[s].is_local());
        assert(nodes[places[j2]].node.ptrs[s2].is_local());
        lemma_children_in_order(nodes, n, j, s, j2, s2);
    }
    assert forall|c: int| 0 < c < n implies #[trigger] is_child(plan, child, c) by {
        let (j, s) = lemma_source_of(nodes, n, n, c);
        assert(0 <= places[j] < nodes.len() && copies_node(plan.entries@[j], nodes[places[j]]));
        assert(nodes[places[j]].node.ptrs[s].is_local());
        assert(has_child(plan, j, s));
    }
    (places, child)
}

/// The number of bytes on disk of the nodes of some entries.
pub open spec fn bytes_of_entries(entries: Seq<DumpEntry>) -> nat
    decreases entries.len(),
{
    if entries.len() == 0 {
        0
    } else {
        bytes_of_entries(entries.drop_last()) + entries.last().node@.byte_len
    }
}

/// An offset is the number of bytes of the nodes that come before.
proof fn lemma_offset_is_sum(
    plan: DumpPlan,
    nodes: Seq<NodeRecord>,
    parent: BlockHeaderHash,
    j: nat,
)
    requires
        plan.lays_out(nodes, parent),
        j <= plan.entries@.len(),
    ensures
        file_offset(nodes, visit_order(nodes, plan.entries@.len()), j) == 32 + bytes_of_entries(
            plan.entries@.take(j as int),
        ),
    decreases j,
{
    if j > 0 {
        let i = (j - 1) as nat;
        lemma_offset_is_sum(plan, nodes, parent, i);
        lemma_entry_holds_node(plan, nodes, parent, i as int);
        assert(plan.entries@.take(j as int).drop_last() =~= plan.entries@.take(i as int));
        assert(plan.entries@.take(j as int).last() == plan.entries@[i as int]);
    } else {
        assert(plan.entries@.take(0) =~= Seq::<DumpEntry>::empty());
    }
}

/// The file ends after 32 bytes for the parent's hash and the bytes of all its
/// nodes, and each node is written after 32 bytes and those of the nodes before
/// it, counted as a pointer of 32 bits can.
pub proof fn law_offsets_add_up(
    plan: DumpPlan,
    nodes: Seq<NodeRecord>,
    parent: BlockHeaderHash,
    j: int,
)
    requires
        plan.lays_out(nodes, parent),
        0 <= j < plan.entries@.len(),
    ensures
        plan.end == 32 + bytes_of_entries(plan.entries@),
        plan.entries@[j].at == (32 + bytes_of_entries(plan.entries@.take(j))) as int
            % 0x1_0000_0000,
{
    let n = plan.entries@.len();
    let order = visit_order(nodes, n);
    lemma_offset_is_sum(plan, nodes, parent, n);
    assert(plan.entries@.take(n as int) =~= plan.entries@);
    lemma_offset_is_sum(plan, nodes, parent, j as nat);
    lemma_offset_monotone(nodes, order, j as nat, n);
    let offset = file_offset(nodes, order, j as nat) as u64;
    assert(offset as u32 == offset % 0x1_0000_0000) by (bit_vector);
    assert(plan.entries@[j].at == write_offset(nodes, order, j as nat));
}

/// A trie has a file if every pointer that can be reached leads to a node: if
/// there are places, the root's among them, that all hold nodes, such that every
/// slot of these nodes whose tag `id` is such that `0 < id < 0x80` leads to one
/// of them.
pub proof fn law_trie_that_holds_together_is_sound(
    nodes: Seq<NodeRecord>,
    reached: spec_fn(int) -> bool,
)
    requires
        reached(0),
        forall|place: int| #[trigger] reached(place) ==> 0 <= place < nodes.len(),
        forall|place: int, slot: int|
            #![trigger nodes[place].node.ptrs[slot]]
            reached(place) && 0 <= slot < nodes[place].node.ptrs.len() && 0
                < nodes[place].node.ptrs[slot].id < 0x80 ==> reached(
                nodes[place].node.ptrs[slot].ptr as int,
            ),
    ensures
        sound(nodes),
{
    assert forall|n: nat| !any_dangles(nodes, #[trigger] visit_order(nodes, n)) by {
        lemma_all_reached(nodes, reached, n);
    }
}

/// A walk meets only pointers to places that can be reached.
proof fn lemma_all_reached(nodes: Seq<NodeRecord>, reached: spec_fn(int) -> bool, n: nat)
    requires
        reached(0),
        forall|place: int, slot: int|
            #![trigger nodes[place].node.ptrs[slot]]
            reached(place) && 0 <= slot < nodes[place].node.ptrs.len() && 0
                < nodes[place].node.ptrs[slot].id < 0x80 ==> reached(
                nodes[place].node.ptrs[slot].ptr as int,
            ),
    ensures
        forall|i: int|
            0 <= i < visit_order(nodes, n).len() ==> reached(
                (#[trigger] visit_order(nodes, n)[i]).ptr as int,
            ),
    decreases n,
{
    if n > 0 {
        let k = (n - 1) as nat;
        lemma_all_reached(nodes, reached, k);
        let before = visit_order(nodes, k);
        let order = visit_order(nodes, n);
        if k < before.len() {
            let p = before[k as int];
            let children = child_ptrs(nodes, p);
            assert forall|i: int| 0 <= i < order.len() implies reached(
                (#[trigger] order[i]).ptr as int,
            ) by {
                if i < before.len() {
                    assert(order[i] == before[i]);
                } else {
                    let ptrs = nodes[p.ptr as int].node.ptrs;
                    assert(ptrs.take(ptrs.len() as int) =~= ptrs);
                    let slot = lemma_local_source(ptrs, ptrs.len() as int, i - before.len());
                    assert(order[i] == nodes[p.ptr as int].node.ptrs[slot]);
                }
            }
        }
    }
}

/// Whether slot `slot` of the node at place `from` has a tag `id` such that
/// `0 < id < 0x80`, and leads to place `to`.
pub open spec fn leads(nodes: Seq<NodeRecord>, from: int, slot: int, to: int) -> bool {
    let ptrs = nodes[from].node.ptrs;
    &&& 0 <= slot < ptrs.len()
    &&& 0 < ptrs[slot].id < 0x80
    &&& ptrs[slot].ptr == to
}

/// A trie without a root, and one of which some pointer that can be reached
/// leads past the nodes there are, have no file. The pointer is in slot `slot`
/// of the last of some places, which are the root's and those to which slots
/// whose tag `id` is such that `0 < id < 0x80` lead from the one before.
pub proof fn law_pointer_to_nowhere_is_refused(
    plan: DumpPlan,
    nodes: Seq<NodeRecord>,
    parent: BlockHeaderHash,
    path: Seq<int>,
    places: Seq<int>,
    slot: int,
)
    requires
        places.len() == path.len() + 1,
        places[0] == 0,
        forall|i: int|
            0 <= i < path.len() ==> leads(nodes, places[i], #[trigger] path[i], places[i + 1]),
        ({
            let ptrs = nodes[places.last()].node.ptrs;
            0 <= slot < ptrs.len() && 0 < ptrs[slot].id < 0x80 && ptrs[slot].ptr >= nodes.len()
        }) || nodes.len() == 0,
    ensures
        !plan.lays_out(nodes, parent),
{
    if plan.lays_out(nodes, parent) {
        let (held, child) = law_file_holds_the_whole_trie(plan, nodes, parent);
        assert(0 <= held[0] < nodes.len());
        let j = lemma_entry_on_path(plan, nodes, held, child, path, places, path.len());
        assert(0 <= held[j] < nodes.len() && copies_node(plan.entries@[j], nodes[held[j]]));
        let ptr = nodes[held[j]].node.ptrs[slot];
        assert(has_child(plan, j, slot));
        assert(0 <= held[child(j, slot)] < nodes.len());
    }
}

/// The entry to which a path leads.
proof fn lemma_entry_on_path(
    plan: DumpPlan,
    nodes: Seq<NodeRecord>,
    held: Seq<int>,
    child: spec_fn(int, int) -> int,
    path: Seq<int>,
    places: Seq<int>,
    k: nat,
) -> (j: int)
    requires
        k <= path.len(),
        places.len() == path.len() + 1,
        places[0] == 0,
        forall|i: int|
            0 <= i < path.len() ==> leads(nodes, places[i], #[trigger] path[i], places[i + 1]),
        plan.entries@.len() > 0,
        held.len() == plan.entries@.len(),
        held[0] == 0,
        forall|j: int|
            0 <= j < plan.entries@.len() ==> 0 <= #[trigger] held[j] < nodes.len() && copies_node(
                plan.entries@[j],
                nodes[held[j]],
            ),
        forall|j: int, s: int| #[trigger]
            has_child(plan, j, s) ==> {
                let c = child(j, s);
                j < c < plan.entries@.len() && held[c] == nodes[held[j]].node.ptrs[s].ptr
            },
    ensures
        0 <= j < plan.entries@.len(),
        held[j] == places[k as int],
    decreases k,
{
    if k == 0 {
        0
    } else {
        let i = k - 1;
        let j = lemma_entry_on_path(plan, nodes, held, child, path, places, i as nat);
        assert(leads(nodes, places[i], path[i], places[i + 1]));
        assert(copies_node(plan.entries@[j], nodes[held[j]]));
        let from = nodes[held[j]].node.ptrs[path[i]];
        assert(has_child(plan, j, path[i]));
        child(j, path[i])
    }
}

/// A walk that fails stops at the first pointer that leads past the nodes there are.
pub proof fn law_failed_walk_stops_there(nodes: Seq<NodeRecord>, order: Seq<TriePtr>, d: int)
    ensures
        first_dangling(nodes, order, d) <==> 0 <= d < order.len() && order[d].ptr >= nodes.len() && (
        forall|i: int| 0 <= i < d ==> (#[trigger] order[i]).ptr < nodes.len()),
{
    if first_dangling(nodes, order, d) {
        assert forall|i: int| 0 <= i < d implies (#[trigger] order[i]).ptr < nodes.len() by {
            assert(!dangles(nodes, order[i]));
        }
    }
}

/// A walk meets the pointer to the root first, which is tagged 5 and leads to
/// place 0. From the node that is met at place `n` it goes on to those of its
/// slots, in order, whose tag `id` is such that `0 < id < 0x80`; from a pointer
/// that leads past the nodes there are, to none.
pub proof fn law_walk_lists_children(nodes: Seq<NodeRecord>, n: nat)
    ensures
        visit_order(nodes, 0).len() == 1,
        visit_order(nodes, 0)[0].id == 5,
        visit_order(nodes, 0)[0].ptr == 0,
        ({
            let order = visit_order(nodes, n);
            visit_order(nodes, n + 1) == if n < order.len() && order[n as int].ptr < nodes.len() {
                order + nodes[order[n as int].ptr as int].node.ptrs.filter(
                    |p: TriePtr| 0 < p.id < 0x80,
                )
            } else {
                order
            }
        }),
{
    assert((|p: TriePtr| p.is_local()) =~= (|p: TriePtr| 0 < p.id < 0x80));
    let order = visit_order(nodes, n);
    assert(order + Seq::<TriePtr>::empty() =~= order);
}

/// The nodes of a list follow one another in the file behind 32 bytes, each as
/// long as it is on disk; a pointer that leads past the nodes there are takes no room.
pub proof fn law_offsets_step_by_node(nodes: Seq<NodeRecord>, order: Seq<TriePtr>, i: nat)
    ensures
        file_offset(nodes, order, 0) == 32,
        file_offset(nodes, order, i + 1) == file_offset(nodes, order, i) + if order[i as int].ptr
            < nodes.len() {
            nodes[order[i as int].ptr as int].node.byte_len
        } else {
            0
        },
{
}

} // verus!
