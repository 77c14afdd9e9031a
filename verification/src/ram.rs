//! In-RAM trie storage: the buffer in which the next trie is built.
use vstd::prelude::*;
use crate::error::Error;
use crate::hash::{BlockHeaderHash, TrieHash};
use crate::node::{get_node_byte_len, NodeRecord, TrieNodeType, TriePtr};
use crate::stats::AccessStats;

verus! {

/// The greatest number of nodes for which room is set aside at once.
pub const MAX_CAPACITY_HINT: usize = 0x80_0000;

/// The trie of one block, held as an array of nodes. A node's place is its
/// index in the array, and the root is at place 0.
pub struct TrieRAM {
    data: Vec<(TrieNodeType, TrieHash)>,
    num_nodes: u64,
    block_header: BlockHeaderHash,
    readonly: bool,
    stats: AccessStats,
    total_bytes: usize,
}

/// What a `TrieRAM` holds: the nodes by place, the block that they belong to,
/// whether they may be changed, what was read and written so far, and the
/// number of bytes on disk of all the nodes that were ever added.
#[verifier::ext_equal]
pub struct TrieRamView {
    pub nodes: Seq<NodeRecord>,
    pub block_header: BlockHeaderHash,
    pub readonly: bool,
    pub stats: AccessStats,
    pub total_bytes: nat,
}

/// A node and its hash as a record.
pub open spec fn record_of(entry: (TrieNodeType, TrieHash)) -> NodeRecord {
    NodeRecord { node: entry.0@, hash: entry.1 }
}

impl View for TrieRAM {
    type V = TrieRamView;

    closed spec fn view(&self) -> TrieRamView {
        TrieRamView {
            nodes: self.data@.map_values(|entry: (TrieNodeType, TrieHash)| record_of(entry)),
            block_header: self.block_header,
            readonly: self.readonly,
            stats: self.stats,
            total_bytes: self.total_bytes as nat,
        }
    }
}

impl TrieRamView {
    /// An empty trie for a block.
    pub open spec fn empty(block_header: BlockHeaderHash) -> Self {
        TrieRamView {
            nodes: Seq::empty(),
            block_header,
            readonly: false,
            stats: AccessStats::zero(),
            total_bytes: 0,
        }
    }

    /// The record that a pointer leads to, if it leads to one.
    pub open spec fn lookup(self, ptr: TriePtr) -> Option<NodeRecord> {
        if ptr.ptr < self.nodes.len() {
            Some(self.nodes[ptr.ptr as int])
        } else {
            None
        }
    }

    /// The place that `last_ptr` hands out: that of the next node to add, as
    /// far as a pointer can express it.
    pub open spec fn next_place(self) -> u32 {
        self.nodes.len() as u32
    }

    /// The trie after a write of `record` at `place` that was not refused for
    /// want of permission: a place in use is overwritten, the next free place
    /// is filled, and a place past that is left alone.
    pub open spec fn after_write(self, place: u32, record: NodeRecord) -> Self {
        let counted = TrieRamView {
            stats: self.stats.after_write(record.node.is_leaf()),
            ..self
        };
        if place < self.next_place() {
            TrieRamView { nodes: self.nodes.update(place as int, record), ..counted }
        } else if place == self.next_place() {
            TrieRamView {
                nodes: self.nodes.push(record),
                total_bytes: self.total_bytes + record.node.byte_len,
                ..counted
            }
        } else {
            counted
        }
    }

    /// Whether the machine's integers can count a write of `record` at `place`.
    pub open spec fn can_write(self, place: u32, record: NodeRecord) -> bool {
        &&& self.stats.can_count_write(record.node.is_leaf())
        &&& place == self.next_place() ==> self.total_bytes + record.node.byte_len <= usize::MAX
    }
}

/// A read gives back what was written: the pointers to a place lead to the
/// record that was put there last, and all others lead where they led before.
/// The place is one in use, or the one behind the last node.
pub proof fn law_read_gives_back_write(
    trie: TrieRamView,
    place: u32,
    record: NodeRecord,
    ptr: TriePtr,
)
    requires
        place < trie.next_place() || place == trie.nodes.len(),
    ensures
        trie.after_write(place, record).lookup(ptr) == if ptr.ptr == place {
            Some(record)
        } else {
            trie.lookup(ptr)
        },
{
}

/// A write past the next free place leaves all nodes as they were.
pub proof fn law_write_past_the_end_is_refused(trie: TrieRamView, place: u32, record: NodeRecord)
    requires
        place > trie.next_place(),
    ensures
        trie.after_write(place, record).nodes == trie.nodes,
        trie.after_write(place, record).total_bytes == trie.total_bytes,
{
}

/// Writing at the place that was handed out for the next node adds the node
/// behind the others, and the next place handed out is the one behind it.
pub proof fn law_next_place_appends(trie: TrieRamView, record: NodeRecord)
    requires
        trie.nodes.len() < u32::MAX,
    ensures
        trie.after_write(trie.next_place(), record).nodes == trie.nodes.push(record),
        trie.after_write(trie.next_place(), record).next_place() == trie.next_place() + 1,
{
}

/// A write loses no node, and leaves the block and the nodes at all other
/// places as they were.
pub proof fn law_write_keeps_the_others(trie: TrieRamView, place: u32, record: NodeRecord)
    ensures
        trie.after_write(place, record).block_header == trie.block_header,
        trie.after_write(place, record).nodes.len() >= trie.nodes.len(),
        forall|i: int|
            0 <= i < trie.nodes.len() && i != place ==> #[trigger] trie.after_write(
                place,
                record,
            ).nodes[i] == trie.nodes[i],
{
}

/// A pointer leads to the node at its place, if there are so many nodes, and
/// nowhere otherwise.
pub proof fn law_lookup_goes_by_place(trie: TrieRamView, ptr: TriePtr)
    ensures
        trie.lookup(ptr) is Some <==> ptr.ptr < trie.nodes.len(),
        trie.lookup(ptr) is Some ==> trie.lookup(ptr)->0.node == trie.nodes[ptr.ptr as int].node
            && trie.lookup(ptr)->0.hash == trie.nodes[ptr.ptr as int].hash,
{
}

/// A node and its hash make the record of both.
pub proof fn law_record_holds_node_and_hash(node: TrieNodeType, hash: TrieHash)
    ensures
        record_of((node, hash)).node == node@,
        record_of((node, hash)).hash == hash,
{
}

/// The next place is the number of nodes, as far as 32 bits can express it.
pub proof fn law_next_place_is_the_length(trie: TrieRamView, len: usize)
    requires
        trie.nodes.len() == len,
    ensures
        trie.next_place() == len as int % 0x1_0000_0000,
{
    let wide = len as u64;
    assert(wide as u32 == wide % 0x1_0000_0000) by (bit_vector);
}

/// A write changes the nodes, the counts of writes, and the number of bytes of
/// the nodes that were added, which grows by those of the node exactly if it is
/// added behind the others. Nothing else changes.
pub proof fn law_write_decides_every_field(trie: TrieRamView, place: u32, record: NodeRecord)
    requires
        trie.can_write(place, record),
        trie.nodes.len() <= u32::MAX,
    ensures
        ({
            let after = trie.after_write(place, record);
            &&& after.block_header == trie.block_header
            &&& after.readonly == trie.readonly
            &&& after.nodes.len() == trie.nodes.len() + if place == trie.nodes.len() {
                1int
            } else {
                0
            }
            &&& after.total_bytes == trie.total_bytes + if place == trie.nodes.len() {
                record.node.byte_len
            } else {
                0
            }
            &&& place <= trie.nodes.len() ==> after.nodes[place as int] == record
            &&& after.stats.write_count == trie.stats.write_count + 1
            &&& after.stats.write_leaf_count == trie.stats.write_leaf_count + if record.node.id
                == 1 {
                1int
            } else {
                0
            }
            &&& after.stats.write_node_count == trie.stats.write_node_count + if record.node.id
                == 1 {
                0int
            } else {
                1
            }
            &&& after.stats.read_count == trie.stats.read_count
            &&& after.stats.read_backptr_count == trie.stats.read_backptr_count
            &&& after.stats.read_node_count == trie.stats.read_node_count
            &&& after.stats.read_leaf_count == trie.stats.read_leaf_count
        }),
{
}

/// The low half of a length is no longer than the length.
proof fn lemma_low_half(len: usize)
    ensures
        len as u32 <= len,
{
    assert(len as u32 <= len) by (bit_vector);
}

impl TrieRAM {
    /// The invariant of the type: the node count is the number of nodes.
    pub closed spec fn wf(&self) -> bool {
        self.num_nodes == self.data@.len()
    }

    /// An empty trie for a block, with room set aside for `capacity_hint`
    /// nodes, as far as it is reasonable to do so at once.
    pub fn new(block_header: &BlockHeaderHash, capacity_hint: usize) -> (trie: TrieRAM)
        ensures
            trie.wf(),
            trie@ == TrieRamView::empty(*block_header),
    {
        let capacity: usize = if capacity_hint < MAX_CAPACITY_HINT {
            capacity_hint
        } else {
            MAX_CAPACITY_HINT
        };
        let trie = TrieRAM {
            data: Vec::with_capacity(capacity),
            num_nodes: 0,
            block_header: *block_header,
            readonly: false,
            stats: AccessStats::new(),
            total_bytes: 0,
        };
        assert(trie@.nodes =~= Seq::empty());
        trie
    }

    /// The counts of all reads and all writes since this was last called.
    pub fn stats(&mut self) -> (totals: (u64, u64))
        requires
            old(self).wf(),
        ensures
            final(self).wf(),
            totals == (old(self)@.stats.read_count, old(self)@.stats.write_count),
            final(self)@ == (TrieRamView {
                stats: AccessStats { read_count: 0, write_count: 0, ..old(self)@.stats },
                ..old(self)@
            }),
    {
        self.stats.take_totals()
    }

    /// The counts of inner-node reads, back-pointer reads and inner-node
    /// writes since this was last called.
    pub fn node_stats(&mut self) -> (nodes: (u64, u64, u64))
        requires
            old(self).wf(),
        ensures
            final(self).wf(),
            nodes == (
                old(self)@.stats.read_node_count,
                old(self)@.stats.read_backptr_count,
                old(self)@.stats.write_node_count,
            ),
            final(self)@ == (TrieRamView {
                stats: AccessStats {
                    read_node_count: 0,
                    read_backptr_count: 0,
                    write_node_count: 0,
                    ..old(self)@.stats
                },
                ..old(self)@
            }),
    {
        self.stats.take_nodes()
    }

    /// The counts of leaf reads and leaf writes since this was last called.
    pub fn leaf_stats(&mut self) -> (leaves: (u64, u64))
        requires
            old(self).wf(),
        ensures
            final(self).wf(),
            leaves == (old(self)@.stats.read_leaf_count, old(self)@.stats.write_leaf_count),
            final(self)@ == (TrieRamView {
                stats: AccessStats {
                    read_leaf_count: 0,
                    write_leaf_count: 0,
                    ..old(self)@.stats
                },
                ..old(self)@
            }),
    {
        self.stats.take_leaves()
    }

    /// The number of bytes on disk of all the nodes that were ever added.
    pub fn size_hint(&self) -> (bytes: usize)
        ensures
            bytes == self@.total_bytes,
    {
        self.total_bytes
    }

    /// The block that the trie belongs to.
    pub fn block(&self) -> (block: BlockHeaderHash)
        ensures
            block == self@.block_header,
    {
        self.block_header
    }

    /// Whether a read through `ptr` can be counted.
    pub fn can_read(&self, ptr: &TriePtr) -> (ready: bool)
        ensures
            ready == self@.stats.can_count_read(ptr.id),
    {
        self.stats.has_room_for_read(ptr.id)
    }

    /// Whether a write of `node` at `place` can be counted.
    pub fn can_write(&self, place: u32, node: &TrieNodeType) -> (ready: bool)
        ensures
            forall|hash: TrieHash| #[trigger]
                self@.can_write(place, NodeRecord { node: node@, hash }) == ready,
    {
        self.stats.has_room_for_write(node.is_leaf()) && (place != self.data.len() as u32
            || get_node_byte_len(node) <= usize::MAX - self.total_bytes)
    }

    /// Whether `n` reads can be counted.
    pub fn can_read_many(&self, n: u64) -> (ready: bool)
        ensures
            ready == self@.stats.read_room(n as int),
    {
        self.stats.has_room_for_reads(n)
    }

    /// How many nodes the trie has.
    pub fn len(&self) -> (len: usize)
        ensures
            len == self@.nodes.len(),
    {
        self.data.len()
    }

    /// The node at a place, without counting this as a read.
    pub fn node_at(&self, place: usize) -> (node: &TrieNodeType)
        requires
            place < self@.nodes.len(),
        ensures
            node@ == self@.nodes[place as int].node,
    {
        assert(self@.nodes[place as int] == record_of(self.data@[place as int]));
        &self.data[place].0
    }

    /// Takes all nodes out of the trie.
    pub fn format(&mut self) -> (r: Result<(), Error>)
        requires
            old(self).wf(),
        ensures
            final(self).wf(),
            old(self)@.readonly ==> r == Err::<(), Error>(Error::ReadOnlyError) && final(self)@ == old(self)@,
            !old(self)@.readonly ==> r is Ok && final(self)@ == (TrieRamView {
                nodes: Seq::empty(),
                ..old(self)@
            }),
    {
        if self.readonly {
            return Err(Error::ReadOnlyError);
        }
        self.data.clear();
        self.num_nodes = 0;
        assert(self@.nodes =~= Seq::empty());
        Ok(())
    }

    /// Appends to `buf` the hash of the node that `ptr` leads to.
    pub fn read_node_hash_bytes(&mut self, ptr: &TriePtr, buf: &mut Vec<u8>) -> (r: Result<(), Error>)
        requires
            old(self).wf(),
        ensures
            final(self).wf(),
            final(self)@ == old(self)@,
            match old(self)@.lookup(*ptr) {
                Some(record) => r is Ok && final(buf)@ == old(buf)@ + record.hash.0@,
                None => r == Err::<(), Error>(Error::NotFoundError) && final(buf)@ == old(buf)@,
            },
    {
        if ptr.ptr as u64 >= self.data.len() as u64 {
            Err(Error::NotFoundError)
        } else {
            let hash: TrieHash = self.data[ptr.ptr as usize].1;
            assert(old(self)@.nodes[ptr.ptr as int].hash == hash);
            buf.extend_from_slice(hash.0.as_slice());
            assert(buf@ =~= old(buf)@ + hash.0@);
            Ok(())
        }
    }

    /// The node that `ptr` leads to, and its hash.
    pub fn read_nodetype(&mut self, ptr: &TriePtr) -> (r: Result<(TrieNodeType, TrieHash), Error>)
        requires
            old(self).wf(),
            old(self)@.stats.can_count_read(ptr.id),
        ensures
            final(self).wf(),
            final(self)@ == (TrieRamView {
                stats: old(self)@.stats.after_read(ptr.id),
                ..old(self)@
            }),
            match r {
                Ok(entry) => old(self)@.lookup(*ptr) == Some(record_of(entry)),
                Err(e) => e == Error::NotFoundError && old(self)@.lookup(*ptr) is None,
            },
    {
        self.stats.count_read(ptr.id);
        if ptr.ptr as u64 >= self.data.len() as u64 {
            Err(Error::NotFoundError)
        } else {
            let place: usize = ptr.ptr as usize;
            assert(old(self)@.nodes[place as int] == record_of(self.data@[place as int]));
            Ok((self.data[place].0.clone(), self.data[place].1))
        }
    }

    /// Puts a node and its hash at a place that is in use, or at the next free place.
    pub fn write_nodetype(&mut self, node_array_ptr: u32, node: &TrieNodeType, hash: TrieHash) -> (r:
        Result<(), Error>)
        requires
            old(self).wf(),
            !old(self)@.readonly ==> old(self)@.can_write(
                node_array_ptr,
                NodeRecord { node: node@, hash },
            ),
        ensures
            final(self).wf(),
            old(self)@.readonly ==> r == Err::<(), Error>(Error::ReadOnlyError) && final(self)@ == old(self)@,
            !old(self)@.readonly ==> {
                &&& final(self)@ == old(self)@.after_write(
                    node_array_ptr,
                    NodeRecord { node: node@, hash },
                )
                &&& node_array_ptr <= old(self)@.next_place() ==> r is Ok
                &&& node_array_ptr > old(self)@.next_place() ==> r == Err::<(), Error>(
                    Error::NotFoundError,
                )
            },
    {
        if self.readonly {
            return Err(Error::ReadOnlyError);
        }
        let ghost record = NodeRecord { node: node@, hash };
        self.stats.count_write(node.is_leaf());
        proof {
            lemma_low_half(self.data.len());
        }
        if node_array_ptr < self.data.len() as u32 {
            self.data[node_array_ptr as usize] = (node.clone(), hash);
            assert(self@.nodes =~= old(self)@.nodes.update(node_array_ptr as int, record));
            Ok(())
        } else if node_array_ptr == self.data.len() as u32 {
            self.data.push((node.clone(), hash));
            assert(self.data.len() == old(self).data@.len() + 1);
            self.num_nodes = self.num_nodes + 1;
            self.total_bytes = self.total_bytes + get_node_byte_len(node);
            assert(self@.nodes =~= old(self)@.nodes.push(record));
            Ok(())
        } else {
            Err(Error::NotFoundError)
        }
    }

    /// The place of the next node to add.
    pub fn last_ptr(&mut self) -> (r: Result<u32, Error>)
        requires
            old(self).wf(),
        ensures
            final(self).wf(),
            final(self)@ == old(self)@,
            r == Ok::<u32, Error>(old(self)@.next_place()),
    {
        Ok(self.data.len() as u32)
    }
}

} // verus!
