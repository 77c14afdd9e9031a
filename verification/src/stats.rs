//! Counts of the node reads and writes that a trie has served.
use vstd::prelude::*;
use crate::node::{is_backptr, TrieNodeID, TriePtr};

verus! {

/// How many nodes were read and written, in all and by kind.
#[derive(Clone, Copy, Debug, PartialEq, Eq, Structural)]
pub struct AccessStats {
    pub read_count: u64,
    pub read_backptr_count: u64,
    pub read_node_count: u64,
    pub read_leaf_count: u64,
    pub write_count: u64,
    pub write_node_count: u64,
    pub write_leaf_count: u64,
}

impl AccessStats {
    /// The counts before any access.
    pub open spec fn zero() -> Self {
        AccessStats {
            read_count: 0,
            read_backptr_count: 0,
            read_node_count: 0,
            read_leaf_count: 0,
            write_count: 0,
            write_node_count: 0,
            write_leaf_count: 0,
        }
    }

    /// Whether `n` more reads fit in every counter of reads.
    pub open spec fn read_room(self, n: int) -> bool {
        &&& self.read_count + n <= u64::MAX
        &&& self.read_backptr_count + n <= u64::MAX
        &&& self.read_node_count + n <= u64::MAX
        &&& self.read_leaf_count + n <= u64::MAX
    }

    /// Whether the counters that a read through a pointer tagged `id` raises have room.
    pub open spec fn can_count_read(self, id: u8) -> bool {
        &&& self.read_count < u64::MAX
        &&& if crate::node::spec_is_backptr(id) {
            self.read_backptr_count < u64::MAX
        } else if id == TrieNodeID::Leaf {
            self.read_leaf_count < u64::MAX
        } else {
            self.read_node_count < u64::MAX
        }
    }

    /// The counts after one read through a pointer tagged `id`: a read counts
    /// once in all, and once as a back pointer, a leaf or an inner node.
    pub open spec fn after_read(self, id: u8) -> Self {
        let all = AccessStats { read_count: (self.read_count + 1) as u64, ..self };
        if crate::node::spec_is_backptr(id) {
            AccessStats { read_backptr_count: (self.read_backptr_count + 1) as u64, ..all }
        } else if id == TrieNodeID::Leaf {
            AccessStats { read_leaf_count: (self.read_leaf_count + 1) as u64, ..all }
        } else {
            AccessStats { read_node_count: (self.read_node_count + 1) as u64, ..all }
        }
    }

    /// The counts after reads through the given pointers.
    pub open spec fn after_reads(self, ptrs: Seq<TriePtr>) -> Self
        decreases ptrs.len(),
    {
        if ptrs.len() == 0 {
            self
        } else {
            self.after_reads(ptrs.drop_last()).after_read(ptrs.last().id)
        }
    }

    /// Whether the counters that a write of a leaf, or of an inner node, raises have room.
    pub open spec fn can_count_write(self, leaf: bool) -> bool {
        &&& self.write_count < u64::MAX
        &&& if leaf {
            self.write_leaf_count < u64::MAX
        } else {
            self.write_node_count < u64::MAX
        }
    }

    /// The counts after one write of a leaf, or of an inner node.
    pub open spec fn after_write(self, leaf: bool) -> Self {
        let all = AccessStats { write_count: (self.write_count + 1) as u64, ..self };
        if leaf {
            AccessStats { write_leaf_count: (self.write_leaf_count + 1) as u64, ..all }
        } else {
            AccessStats { write_node_count: (self.write_node_count + 1) as u64, ..all }
        }
    }

    /// The counts before any access.
    pub fn new() -> (stats: Self)
        ensures
            stats == Self::zero(),
    {
        AccessStats {
            read_count: 0,
            read_backptr_count: 0,
            read_node_count: 0,
            read_leaf_count: 0,
            write_count: 0,
            write_node_count: 0,
            write_leaf_count: 0,
        }
    }

    /// Whether a read through a pointer tagged `id` can be counted.
    pub fn has_room_for_read(&self, id: u8) -> (room: bool)
        ensures
            room == self.can_count_read(id),
    {
        let by_kind: u64 = if is_backptr(id) {
            self.read_backptr_count
        } else if id == TrieNodeID::Leaf {
            self.read_leaf_count
        } else {
            self.read_node_count
        };
        self.read_count < u64::MAX && by_kind < u64::MAX
    }

    /// Whether a write of a leaf, or of an inner node, can be counted.
    pub fn has_room_for_write(&self, leaf: bool) -> (room: bool)
        ensures
            room == self.can_count_write(leaf),
    {
        let by_kind: u64 = if leaf {
            self.write_leaf_count
        } else {
            self.write_node_count
        };
        self.write_count < u64::MAX && by_kind < u64::MAX
    }

    /// Whether `n` more reads fit in every counter of reads.
    pub fn has_room_for_reads(&self, n: u64) -> (room: bool)
        ensures
            room == self.read_room(n as int),
    {
        n <= u64::MAX - self.read_count && n <= u64::MAX - self.read_backptr_count && n <= u64::MAX
            - self.read_node_count && n <= u64::MAX - self.read_leaf_count
    }

    /// Counts a read through a pointer tagged `id`.
    pub fn count_read(&mut self, id: u8)
        requires
            old(self).can_count_read(id),
        ensures
            *final(self) == old(self).after_read(id),
    {
        self.read_count = self.read_count + 1;
        if is_backptr(id) {
            self.read_backptr_count = self.read_backptr_count + 1;
        } else if id == TrieNodeID::Leaf {
            self.read_leaf_count = self.read_leaf_count + 1;
        } else {
            self.read_node_count = self.read_node_count + 1;
        }
    }

    /// Counts a write of a leaf, or of an inner node.
    pub fn count_write(&mut self, leaf: bool)
        requires
            old(self).can_count_write(leaf),
        ensures
            *final(self) == old(self).after_write(leaf),
    {
        self.write_count = self.write_count + 1;
        if leaf {
            self.write_leaf_count = self.write_leaf_count + 1;
        } else {
            self.write_node_count = self.write_node_count + 1;
        }
    }

    /// Hands out the counts of all reads and all writes, and starts them anew.
    pub fn take_totals(&mut self) -> (totals: (u64, u64))
        ensures
            totals == (old(self).read_count, old(self).write_count),
            *final(self) == (AccessStats { read_count: 0, write_count: 0, ..*old(self) }),
    {
        let r: u64 = self.read_count;
        let w: u64 = self.write_count;
        self.read_count = 0;
        self.write_count = 0;
        (r, w)
    }

    /// Hands out the counts of inner-node reads, back-pointer reads and
    /// inner-node writes, and starts them anew.
    pub fn take_nodes(&mut self) -> (nodes: (u64, u64, u64))
        ensures
            nodes == (
                old(self).read_node_count,
                old(self).read_backptr_count,
                old(self).write_node_count,
            ),
            *final(self) == (AccessStats {
                read_node_count: 0,
                read_backptr_count: 0,
                write_node_count: 0,
                ..*old(self)
            }),
    {
        let nr: u64 = self.read_node_count;
        let br: u64 = self.read_backptr_count;
        let nw: u64 = self.write_node_count;
        self.read_node_count = 0;
        self.read_backptr_count = 0;
        self.write_node_count = 0;
        (nr, br, nw)
    }

    /// Hands out the counts of leaf reads and leaf writes, and starts them anew.
    pub fn take_leaves(&mut self) -> (leaves: (u64, u64))
        ensures
            leaves == (old(self).read_leaf_count, old(self).write_leaf_count),
            *final(self) == (AccessStats { read_leaf_count: 0, write_leaf_count: 0, ..*old(self) }),
    {
        let lr: u64 = self.read_leaf_count;
        let lw: u64 = self.write_leaf_count;
        self.read_leaf_count = 0;
        self.write_leaf_count = 0;
        (lr, lw)
    }
}

/// Every read counts once in all and once by kind: what the total has over the
/// sum of the kinds stays the same.
pub proof fn law_reads_add_up(stats: AccessStats, id: u8)
    requires
        stats.can_count_read(id),
    ensures
        ({
            let after = stats.after_read(id);
            &&& after.read_count == stats.read_count + 1
            &&& after.read_count - (after.read_backptr_count + after.read_node_count
                + after.read_leaf_count) == stats.read_count - (stats.read_backptr_count
                + stats.read_node_count + stats.read_leaf_count)
            &&& after.write_count == stats.write_count
            &&& after.write_node_count == stats.write_node_count
            &&& after.write_leaf_count == stats.write_leaf_count
        }),
{
}

/// Every write counts once in all and once by kind: what the total has over the
/// sum of the kinds stays the same.
pub proof fn law_writes_add_up(stats: AccessStats, leaf: bool)
    requires
        stats.can_count_write(leaf),
    ensures
        ({
            let after = stats.after_write(leaf);
            &&& after.write_count == stats.write_count + 1
            &&& after.write_count - (after.write_node_count + after.write_leaf_count)
                == stats.write_count - (stats.write_node_count + stats.write_leaf_count)
            &&& after.read_count == stats.read_count
            &&& after.read_backptr_count == stats.read_backptr_count
            &&& after.read_node_count == stats.read_node_count
            &&& after.read_leaf_count == stats.read_leaf_count
        }),
{
}

/// A read through a pointer with the back-pointer mark, a tag of 0x80 or more,
/// counts as one of these; a read through one tagged 1 counts as one of a leaf;
/// any other read counts as one of an inner node.
pub proof fn law_read_counts_by_tag(stats: AccessStats, id: u8)
    requires
        stats.can_count_read(id),
    ensures
        ({
            let after = stats.after_read(id);
            &&& after.read_count == stats.read_count + 1
            &&& after.read_backptr_count == stats.read_backptr_count + if id >= 0x80 {
                1int
            } else {
                0
            }
            &&& after.read_leaf_count == stats.read_leaf_count + if id == 1 {
                1int
            } else {
                0
            }
            &&& after.read_node_count == stats.read_node_count + if id < 0x80 && id != 1 {
                1int
            } else {
                0
            }
        }),
{
}

/// A write of a leaf counts as one of a leaf, and any other as one of an inner node.
pub proof fn law_write_counts_by_kind(stats: AccessStats, leaf: bool)
    requires
        stats.can_count_write(leaf),
    ensures
        ({
            let after = stats.after_write(leaf);
            &&& after.write_count == stats.write_count + 1
            &&& after.write_leaf_count == stats.write_leaf_count + if leaf {
                1int
            } else {
                0
            }
            &&& after.write_node_count == stats.write_node_count + if leaf {
                0int
            } else {
                1
            }
        }),
{
}

/// Only a full counter keeps a read or a write from being counted.
pub proof fn law_counting_needs_only_room(stats: AccessStats, id: u8, leaf: bool, n: int)
    requires
        n >= 0,
    ensures
        stats.can_count_read(id) <==> stats.read_count < u64::MAX && if id >= 0x80 {
            stats.read_backptr_count < u64::MAX
        } else if id == 1 {
            stats.read_leaf_count < u64::MAX
        } else {
            stats.read_node_count < u64::MAX
        },
        stats.can_count_write(leaf) <==> stats.write_count < u64::MAX && if leaf {
            stats.write_leaf_count < u64::MAX
        } else {
            stats.write_node_count < u64::MAX
        },
        stats.read_room(n) <==> stats.read_count <= u64::MAX - n && stats.read_backptr_count
            <= u64::MAX - n && stats.read_node_count <= u64::MAX - n && stats.read_leaf_count
            <= u64::MAX - n,
{
}

/// Reads count one by one: one more counts on top of those before it, and none
/// at all counts nothing.
pub proof fn law_reads_count_one_by_one(stats: AccessStats, ptrs: Seq<TriePtr>, next: TriePtr)
    ensures
        stats.after_reads(Seq::empty()) == stats,
        stats.after_reads(ptrs.push(next)) == stats.after_reads(ptrs).after_read(next.id),
        stats.read_room(ptrs.len() as int) ==> stats.after_reads(ptrs).read_count
            == stats.read_count + ptrs.len(),
    decreases ptrs.len(),
{
    assert(ptrs.push(next).drop_last() =~= ptrs);
    if ptrs.len() > 0 && stats.read_room(ptrs.len() as int) {
        law_reads_count_one_by_one(stats, ptrs.drop_last(), ptrs.last());
        lemma_reads_fit(stats, ptrs.drop_last(), ptrs.len() as int);
    }
}

/// Reads leave the counts of writes as they are.
pub proof fn law_reads_keep_write_counts(stats: AccessStats, ptrs: Seq<TriePtr>)
    ensures
        stats.after_reads(ptrs).write_count == stats.write_count,
        stats.after_reads(ptrs).write_node_count == stats.write_node_count,
        stats.after_reads(ptrs).write_leaf_count == stats.write_leaf_count,
    decreases ptrs.len(),
{
    if ptrs.len() > 0 {
        law_reads_keep_write_counts(stats, ptrs.drop_last());
    }
}

/// Reads take up no more room than their number.
pub proof fn lemma_reads_fit(stats: AccessStats, ptrs: Seq<TriePtr>, n: int)
    requires
        ptrs.len() <= n,
        stats.read_room(n),
    ensures
        stats.after_reads(ptrs).read_room(n - ptrs.len()),
    decreases ptrs.len(),
{
    if ptrs.len() > 0 {
        lemma_reads_fit(stats, ptrs.drop_last(), n);
    }
}

} // verus!
