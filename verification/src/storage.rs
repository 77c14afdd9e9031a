//! Disk-backed storage of tries, one file for each block.
use vstd::prelude::*;
use crate::error::Error;
use crate::hash::{lemma_same_bytes, BlockHeaderHash, TrieHash, BLOCK_HEADER_HASH_ENCODED_SIZE};
use crate::index::HashIndex;
use crate::node::{
    clear_backptr, spec_clear_backptr, NodeRecord, TrieNodeID, TrieNodeType, TriePtr,
};
use crate::paths::spec_block_path;
use crate::ram::{law_read_gives_back_write, record_of, TrieRAM, TrieRamView};
use crate::stats::{law_read_counts_by_tag, AccessStats};

verus! {

/// Where in the fork table a block is: which fork, and how far along it.
#[derive(Clone, Copy, Debug, PartialEq, Eq, Structural)]
pub struct TrieForkPtr {
    pub column: usize,
    pub row: usize,
}

/// The tries of a forest of blocks. The trie that was extended last is kept in
/// RAM until it is flushed; the others are read from their files.
pub struct TrieFileStorage {
    pub dir_path: String,
    pub(crate) readonly: bool,
    pub(crate) last_extended: Option<BlockHeaderHash>,
    pub(crate) last_extended_trie: Option<TrieRAM>,
    pub(crate) cur_block: BlockHeaderHash,
    /// Whether the file of the current block is open.
    pub(crate) cur_block_open: bool,
    /// Where in the fork table the current block is, once it has been looked up.
    pub(crate) cur_block_fork_ptr: Option<TrieForkPtr>,
    pub(crate) stats: AccessStats,
    /// The paths of block files that have been asked for.
    pub(crate) block_path_cache: HashIndex<String>,
}

/// The state of a `TrieFileStorage`.
#[verifier::ext_equal]
pub struct StorageView {
    pub dir: Seq<char>,
    pub readonly: bool,
    pub last_extended: Option<BlockHeaderHash>,
    pub trie: Option<TrieRamView>,
    pub cur_block: BlockHeaderHash,
    pub file_open: bool,
    pub fork_ptr: Option<TrieForkPtr>,
    pub stats: AccessStats,
}

impl StorageView {
    /// Whether the current block is the one whose trie is in RAM.
    pub open spec fn in_ram(self) -> bool {
        self.last_extended == Some(self.cur_block)
    }

    /// The place of the root of the current block's trie: the first place in
    /// RAM, or the first one behind the parent's hash in a file.
    pub open spec fn root_place(self) -> u32 {
        if self.in_ram() {
            0
        } else {
            BLOCK_HEADER_HASH_ENCODED_SIZE
        }
    }

    /// What a read of a node through `ptr` returns: the node and its hash if the
    /// current block's trie is in RAM, and otherwise where they are in its file,
    /// if that is open.
    pub open spec fn reads_node(
        self,
        ptr: TriePtr,
        r: Result<Served<(TrieNodeType, TrieHash)>, Error>,
    ) -> bool {
        if self.in_ram() {
            match r {
                Ok(Served::InRam(entry)) => self.trie->0.lookup(ptr) == Some(record_of(entry)),
                Ok(Served::OnDisk(_)) => false,
                Err(e) => e == Error::NotFoundError && self.trie->0.lookup(ptr) is None,
            }
        } else if self.file_open {
            r == Ok::<Served<(TrieNodeType, TrieHash)>, Error>(Served::OnDisk(here_ptr(ptr)))
        } else {
            r == Err::<Served<(TrieNodeType, TrieHash)>, Error>(Error::NotFoundError)
        }
    }

    /// What a read of a node's hash through `ptr` returns, and what it makes of
    /// the bytes that were read before.
    pub open spec fn reads_hash(
        self,
        ptr: TriePtr,
        before: Seq<u8>,
        after: Seq<u8>,
        r: Result<Served<()>, Error>,
    ) -> bool {
        if self.in_ram() && self.trie->0.lookup(ptr) is Some {
            &&& r == Ok::<Served<()>, Error>(Served::InRam(()))
            &&& after == before + self.trie->0.lookup(ptr)->0.hash.0@
        } else if !self.in_ram() && self.file_open {
            r == Ok::<Served<()>, Error>(Served::OnDisk(ptr)) && after == before
        } else {
            r == Err::<Served<()>, Error>(Error::NotFoundError) && after == before
        }
    }

    /// Whether there is nothing to read nodes from: the current block's trie is
    /// not in RAM, and its file is not open.
    pub open spec fn unread(self) -> bool {
        !self.in_ram() && !self.file_open
    }

    /// The state after a read of a node through `ptr`.
    pub open spec fn after_node_read(self, ptr: TriePtr) -> Self {
        let counted = StorageView { stats: self.stats.after_read(ptr.id), ..self };
        if self.in_ram() {
            let trie = self.trie->0;
            StorageView {
                trie: Some(
                    TrieRamView {
                        stats: trie.stats.after_read(spec_clear_backptr(ptr.id)),
                        ..trie
                    },
                ),
                ..counted
            }
        } else {
            counted
        }
    }

    /// Whether the current block is the one whose trie is in RAM, and the
    /// machine's integers can count a write of `record` at `place` of it.
    pub open spec fn can_write(self, place: u32, record: NodeRecord) -> bool {
        &&& self.in_ram()
        &&& self.stats.can_count_write(record.node.is_leaf())
        &&& self.trie->0.can_write(place, record)
    }

    /// The state after a write of `record` at `place` of the trie in RAM.
    pub open spec fn after_node_write(self, place: u32, record: NodeRecord) -> Self {
        StorageView {
            stats: self.stats.after_write(record.node.is_leaf()),
            trie: Some(self.trie->0.after_write(place, record)),
            ..self
        }
    }

    /// Storage in a directory, before any block is opened or added.
    pub open spec fn fresh(dir: Seq<char>) -> Self {
        StorageView {
            dir,
            readonly: false,
            last_extended: None,
            trie: None,
            cur_block: spec_block_sentinel(),
            file_open: false,
            fork_ptr: None,
            stats: AccessStats::zero(),
        }
    }
}

impl View for TrieFileStorage {
    type V = StorageView;

    open(crate) spec fn view(&self) -> StorageView {
        StorageView {
            dir: self.dir_path@,
            readonly: self.readonly,
            last_extended: self.last_extended,
            trie: match self.last_extended_trie {
                Some(trie) => Some(trie@),
                None => None,
            },
            cur_block: self.cur_block,
            file_open: self.cur_block_open,
            fork_ptr: self.cur_block_fork_ptr,
            stats: self.stats,
        }
    }
}

/// The hash that stands for the parent of the first block: all ones, and the
/// hash of no block.
pub open spec fn spec_block_sentinel() -> BlockHeaderHash {
    BlockHeaderHash(vstd::array::spec_array_fill_for_copy_type::<u8, 32>(255))
}

/// The pointer to the same place, in the current block's trie.
pub open spec fn here_ptr(ptr: TriePtr) -> TriePtr {
    TriePtr { id: spec_clear_backptr(ptr.id), chr: ptr.chr, ptr: ptr.ptr, back_block: 0 }
}

/// Where a node is to be found: in RAM, and then it is at hand, or in the file
/// of the current block.
#[derive(Debug, PartialEq, Eq)]
pub enum Served<T> {
    InRam(T),
    OnDisk(TriePtr),
}

impl TrieFileStorage {
    /// The invariant of the type: there is a trie in RAM exactly if some block
    /// was extended to, it is the trie of that block and may be written, the
    /// file of the current block is not open if its trie is in RAM, and every
    /// path that was remembered is the right one.
    pub open(crate) spec fn wf(&self) -> bool {
        &&& self.last_extended is Some <==> self.last_extended_trie is Some
        &&& self.last_extended_trie is Some ==> {
            let trie = self.last_extended_trie->0;
            &&& trie.wf()
            &&& trie@.block_header == self.last_extended->0
            &&& !trie@.readonly
        }
        &&& self.last_extended == Some(self.cur_block) ==> !self.cur_block_open
        &&& self.block_path_cache.wf()
        &&& forall|bhh: BlockHeaderHash|
            #![trigger self.block_path_cache@.dom().contains(bhh.0@)]
            self.block_path_cache@.dom().contains(bhh.0@) ==> self.block_path_cache@[bhh.0@]@
                == spec_block_path(self.dir_path@, bhh)
    }

    /// The trie in RAM is that of the block that was extended to last, and it
    /// may be written; there is none if no block was extended to. While the
    /// current block's trie is in RAM, its file is not open.
    pub proof fn law_trie_in_ram_is_the_last(&self)
        requires
            self.wf(),
        ensures
            self@.last_extended is Some <==> self@.trie is Some,
            self@.trie is Some ==> self@.trie->0.block_header == self@.last_extended->0
                && !self@.trie->0.readonly,
            self@.in_ram() ==> !self@.file_open,
    {
    }

    /// The block hash of the "parent of the root". This does not correspond to
    /// a real block, but instead is a sentinel value that is all 1's.
    pub fn block_sentinel() -> (bhh: BlockHeaderHash)
        ensures
            bhh == spec_block_sentinel(),
            bhh.0@ == Seq::new(32, |i: int| 255u8),
    {
        let bytes: [u8; 32] = [255u8; 32];
        assert(bytes@ =~= Seq::new(32, |i: int| 255u8));
        BlockHeaderHash(bytes)
    }

    /// Storage in a directory, before any block is opened or added.
    pub(crate) fn fresh(dir_path: &String) -> (storage: TrieFileStorage)
        ensures
            storage.wf(),
            storage@ == StorageView::fresh(dir_path@),
    {
        TrieFileStorage {
            dir_path: dir_path.clone(),
            readonly: false,
            last_extended: None,
            last_extended_trie: None,
            cur_block: TrieFileStorage::block_sentinel(),
            cur_block_open: false,
            cur_block_fork_ptr: None,
            stats: AccessStats::new(),
            block_path_cache: HashIndex::new(),
        }
    }

    /// Whether the trie in RAM is that of a block.
    pub fn holds_trie_of(&self, bhh: &BlockHeaderHash) -> (holds: bool)
        ensures
            holds == (self@.last_extended == Some(*bhh)),
    {
        match self.last_extended {
            Some(last) => last == *bhh,
            None => false,
        }
    }

    /// Whether the current block is the one whose trie is in RAM.
    pub fn current_in_ram(&self) -> (in_ram: bool)
        ensures
            in_ram == self@.in_ram(),
    {
        self.holds_trie_of(&self.cur_block)
    }

    /// The counts of all reads and all writes since this was last called.
    pub fn stats(&mut self) -> (totals: (u64, u64))
        requires
            old(self).wf(),
        ensures
            final(self).wf(),
            totals == (old(self)@.stats.read_count, old(self)@.stats.write_count),
            final(self)@ == (StorageView {
                stats: AccessStats { read_count: 0, write_count: 0, ..old(self)@.stats },
                ..old(self)@
            }),
    {
        self.stats.take_totals()
    }

    /// The counts of inner-node reads, back-pointer reads and inner-node
    /// writes since this was last called.
    pub fn node_stats(&mut self) -> (nodes: (u64, u64, u64))
        requires
            old(self).wf(),
        ensures
            final(self).wf(),
            nodes == (
                old(self)@.stats.read_node_count,
                old(self)@.stats.read_backptr_count,
                old(self)@.stats.write_node_count,
            ),
            final(self)@ == (StorageView {
                stats: AccessStats {
                    read_node_count: 0,
                    read_backptr_count: 0,
                    write_node_count: 0,
                    ..old(self)@.stats
                },
                ..old(self)@
            }),
    {
        self.stats.take_nodes()
    }

    /// The counts of leaf reads and leaf writes since this was last called.
    pub fn leaf_stats(&mut self) -> (leaves: (u64, u64))
        requires
            old(self).wf(),
        ensures
            final(self).wf(),
            leaves == (old(self)@.stats.read_leaf_count, old(self)@.stats.write_leaf_count),
            final(self)@ == (StorageView {
                stats: AccessStats {
                    read_leaf_count: 0,
                    write_leaf_count: 0,
                    ..old(self)@.stats
                },
                ..old(self)@
            }),
    {
        self.stats.take_leaves()
    }

    /// The path of the file of a block, out of the paths that were asked for
    /// before if it is among them.
    pub fn cached_block_path(&mut self, bhh: &BlockHeaderHash) -> (path: String)
        requires
            old(self).wf(),
        ensures
            final(self).wf(),
            final(self)@ == old(self)@,
            path@ == spec_block_path(old(self)@.dir, *bhh),
    {
        match self.block_path_cache.get(&bhh.0) {
            Some(path) => {
                return path.clone();
            },
            None => {},
        }
        let path = TrieFileStorage::block_path(&self.dir_path, bhh);
        self.block_path_cache.insert(bhh.0, path.clone());
        assert forall|other: BlockHeaderHash|
            #![trigger self.block_path_cache@.dom().contains(other.0@)]
            self.block_path_cache@.dom().contains(
                other.0@,
            ) implies self.block_path_cache@[other.0@]@ == spec_block_path(self.dir_path@, other) by {
            if other.0@ == bhh.0@ {
                lemma_same_bytes(other, *bhh);
            } else {
                assert(old(self).block_path_cache@.dom().contains(other.0@));
            }
        }
        path
    }

    /// The current block.
    pub fn get_cur_block(&self) -> (bhh: BlockHeaderHash)
        ensures
            bhh == self@.cur_block,
    {
        self.cur_block
    }

    /// The place of the root of the current block's trie: the first place in
    /// RAM, or the first one behind the parent's hash in a file.
    pub fn root_ptr(&self) -> (ptr: u32)
        ensures
            ptr == self@.root_place(),
    {
        if self.current_in_ram() {
            0
        } else {
            // the block parent's hash comes first
            BLOCK_HEADER_HASH_ENCODED_SIZE
        }
    }

    /// The pointer to the root of a trie in a block's file.
    pub fn file_root_ptr() -> (ptr: TriePtr)
        ensures
            ptr == (TriePtr {
                id: TrieNodeID::Node256,
                chr: 0,
                ptr: BLOCK_HEADER_HASH_ENCODED_SIZE,
                back_block: 0,
            }),
    {
        TriePtr::new(TrieNodeID::Node256, 0, BLOCK_HEADER_HASH_ENCODED_SIZE)
    }

    /// Whether the storage may be written.
    pub fn readwrite(&self) -> (writable: bool)
        ensures
            writable == !self@.readonly,
    {
        !self.readonly
    }

    /// Whether the file of the current block is open.
    pub fn file_open(&self) -> (open: bool)
        ensures
            open == self@.file_open,
    {
        self.cur_block_open
    }

    /// Whether there is a trie in RAM.
    pub fn has_trie(&self) -> (has: bool)
        ensures
            has == (self@.trie is Some),
    {
        self.last_extended_trie.is_some()
    }

    /// Whether a read of a node through `ptr` can be counted.
    pub fn can_read(&self, ptr: &TriePtr) -> (ready: bool)
        requires
            self.wf(),
        ensures
            ready == (self@.stats.can_count_read(ptr.id) && (self@.in_ram()
                ==> self@.trie->0.stats.can_count_read(spec_clear_backptr(ptr.id)))),
    {
        if !self.stats.has_room_for_read(ptr.id) {
            return false;
        }
        match &self.last_extended_trie {
            Some(trie) => !self.current_in_ram() || trie.can_read(
                &TriePtr::new(clear_backptr(ptr.id), ptr.chr, ptr.ptr),
            ),
            None => true,
        }
    }

    /// Whether the current block is the one whose trie is in RAM, and a write
    /// of `node` at `place` of it can be counted.
    pub fn can_write(&self, place: u32, node: &TrieNodeType) -> (ready: bool)
        requires
            self.wf(),
        ensures
            forall|hash: TrieHash| #[trigger]
                self@.can_write(place, NodeRecord { node: node@, hash }) == ready,
    {
        match &self.last_extended_trie {
            Some(trie) => self.current_in_ram() && self.stats.has_room_for_write(node.is_leaf())
                && trie.can_write(place, node),
            None => false,
        }
    }

    /// Appends to `buf` the hash of the node that `ptr` leads to, if the
    /// current block's trie is in RAM, and otherwise says where in the block's
    /// file it is.
    pub fn read_node_hash_bytes(&mut self, ptr: &TriePtr, buf: &mut Vec<u8>) -> (r: Result<
        Served<()>,
        Error,
    >)
        requires
            old(self).wf(),
        ensures
            final(self).wf(),
            final(self)@ == old(self)@,
            old(self)@.reads_hash(*ptr, old(buf)@, final(buf)@, r),
    {
        if self.current_in_ram() {
            // special case
            let mut trie = self.last_extended_trie.take().unwrap();
            let r = trie.read_node_hash_bytes(ptr, buf);
            self.last_extended_trie = Some(trie);
            return match r {
                Ok(()) => Ok(Served::InRam(())),
                Err(e) => Err(e),
            };
        }
        // some other block
        if self.cur_block_open {
            Ok(Served::OnDisk(*ptr))
        } else {
            Err(Error::NotFoundError)
        }
    }

    /// The node that `ptr` leads to, and its hash, if the current block's trie
    /// is in RAM, and otherwise where in the block's file it is. The pointer is
    /// not treated as a back pointer.
    pub fn read_nodetype(&mut self, ptr: &TriePtr) -> (r: Result<
        Served<(TrieNodeType, TrieHash)>,
        Error,
    >)
        requires
            old(self).wf(),
            old(self)@.stats.can_count_read(ptr.id),
            old(self)@.in_ram() ==> old(self)@.trie->0.stats.can_count_read(
                spec_clear_backptr(ptr.id),
            ),
        ensures
            final(self).wf(),
            final(self)@ == old(self)@.after_node_read(*ptr),
            old(self)@.reads_node(*ptr, r),
    {
        self.stats.count_read(ptr.id);
        let clear_ptr = TriePtr::new(clear_backptr(ptr.id), ptr.chr, ptr.ptr);
        if self.current_in_ram() {
            // special case
            let mut trie = self.last_extended_trie.take().unwrap();
            let r = trie.read_nodetype(&clear_ptr);
            self.last_extended_trie = Some(trie);
            return match r {
                Ok(entry) => Ok(Served::InRam(entry)),
                Err(e) => Err(e),
            };
        }
        // some other block
        if self.cur_block_open {
            Ok(Served::OnDisk(clear_ptr))
        } else {
            Err(Error::NotFoundError)
        }
    }

    /// Puts a node and its hash at a place of the current block's trie, which
    /// must be the one in RAM: only a flush writes to disk.
    pub fn write_nodetype(&mut self, disk_ptr: u32, node: &TrieNodeType, hash: TrieHash) -> (r:
        Result<(), Error>)
        requires
            old(self).wf(),
            !old(self)@.readonly ==> old(self)@.can_write(
                disk_ptr,
                NodeRecord { node: node@, hash },
            ),
        ensures
            final(self).wf(),
            old(self)@.readonly ==> r == Err::<(), Error>(Error::ReadOnlyError) && final(self)@
                == old(self)@,
            !old(self)@.readonly ==> {
                &&& final(self)@ == old(self)@.after_node_write(
                    disk_ptr,
                    NodeRecord { node: node@, hash },
                )
                &&& disk_ptr <= old(self)@.trie->0.next_place() ==> r is Ok
                &&& disk_ptr > old(self)@.trie->0.next_place() ==> r == Err::<(), Error>(
                    Error::NotFoundError,
                )
            },
    {
        if self.readonly {
            return Err(Error::ReadOnlyError);
        }
        self.stats.count_write(node.is_leaf());
        let mut trie = self.last_extended_trie.take().unwrap();
        let r = trie.write_nodetype(disk_ptr, node, hash);
        self.last_extended_trie = Some(trie);
        r
    }

    /// Puts a node of any kind and its hash at a place of the current block's trie.
    pub fn write_node(&mut self, ptr: u32, node: &TrieNodeType, hash: TrieHash) -> (r: Result<
        (),
        Error,
    >)
        requires
            old(self).wf(),
            !old(self)@.readonly ==> old(self)@.can_write(ptr, NodeRecord { node: node@, hash }),
        ensures
            final(self).wf(),
            old(self)@.readonly ==> r == Err::<(), Error>(Error::ReadOnlyError) && final(self)@
                == old(self)@,
            !old(self)@.readonly ==> {
                &&& final(self)@ == old(self)@.after_node_write(
                    ptr,
                    NodeRecord { node: node@, hash },
                )
                &&& ptr <= old(self)@.trie->0.next_place() ==> r is Ok
                &&& ptr > old(self)@.trie->0.next_place() ==> r == Err::<(), Error>(
                    Error::NotFoundError,
                )
            },
    {
        self.write_nodetype(ptr, node, hash)
    }

    /// The place of the next node to add to the trie in RAM, of which there must be one.
    pub fn last_ptr(&mut self) -> (r: Result<u32, Error>)
        requires
            old(self).wf(),
            !old(self)@.readonly ==> old(self)@.trie is Some,
        ensures
            final(self).wf(),
            final(self)@ == old(self)@,
            r == if old(self)@.readonly {
                Err::<u32, Error>(Error::ReadOnlyError)
            } else {
                Ok(old(self)@.trie->0.next_place())
            },
    {
        if self.readonly {
            return Err(Error::ReadOnlyError);
        }
        let mut trie = self.last_extended_trie.take().unwrap();
        let r = trie.last_ptr();
        self.last_extended_trie = Some(trie);
        r
    }
}

/// A read gives back what was written to the trie in RAM, through a pointer
/// with or without the back-pointer mark, and the other nodes are as they were.
pub proof fn law_read_gives_back_node(
    storage: StorageView,
    place: u32,
    record: NodeRecord,
    ptr: TriePtr,
)
    requires
        storage.in_ram(),
        storage.trie is Some,
        place < storage.trie->0.next_place() || place == storage.trie->0.nodes.len(),
    ensures
        storage.after_node_write(place, record).in_ram(),
        storage.after_node_write(place, record).trie->0.lookup(ptr) == if ptr.ptr == place {
            Some(record)
        } else {
            storage.trie->0.lookup(ptr)
        },
        storage.trie->0.lookup(here_ptr(ptr)) == storage.trie->0.lookup(ptr),
{
    law_read_gives_back_write(storage.trie->0, place, record, ptr);
}

/// Reading a node changes nothing but the counts.
pub proof fn law_read_changes_counts_only(storage: StorageView, ptr: TriePtr)
    requires
        storage.in_ram() ==> storage.trie is Some,
    ensures
        ({
            let after = storage.after_node_read(ptr);
            &&& after == (StorageView { stats: after.stats, trie: after.trie, ..storage })
            &&& after.trie is Some <==> storage.trie is Some
            &&& storage.trie is Some ==> after.trie->0 == (TrieRamView {
                stats: after.trie->0.stats,
                ..storage.trie->0
            })
        }),
{
}

/// The sentinel is the hash all of whose bytes are 255, and no other.
pub proof fn law_sentinel_is_all_ones(bhh: BlockHeaderHash)
    ensures
        bhh == spec_block_sentinel() <==> forall|k: int|
            0 <= k < 32 ==> #[trigger] bhh.0@[k] == 255,
{
    let sentinel = spec_block_sentinel();
    assert forall|k: int| 0 <= k < 32 implies #[trigger] sentinel.0@[k] == 255 by {}
    if forall|k: int| 0 <= k < 32 ==> #[trigger] bhh.0@[k] == 255 {
        assert(bhh.0@ =~= sentinel.0@);
        lemma_same_bytes(bhh, sentinel);
    }
}

/// The root of the current block's trie is at place 0 if the trie is in RAM,
/// and at offset 32 otherwise.
pub proof fn law_root_is_at_0_or_32(storage: StorageView)
    ensures
        storage.root_place() == if storage.last_extended == Some(storage.cur_block) {
            0int
        } else {
            32
        },
{
}

/// A read from the file of the current block is made at the place that was
/// given, for a node of the kind that was given, with no back-pointer mark: the
/// pointers tagged `id` and `id + 0x80` are both read with tag `id`.
pub proof fn law_read_from_file_keeps_the_kind(
    storage: StorageView,
    ptr: TriePtr,
    r: Result<Served<(TrieNodeType, TrieHash)>, Error>,
)
    requires
        storage.last_extended != Some(storage.cur_block),
        storage.file_open,
        storage.reads_node(ptr, r),
    ensures
        r is Ok,
        r->Ok_0 is OnDisk,
        ({
            let on_disk = r->Ok_0->OnDisk_0;
            &&& on_disk.id < 0x80
            &&& ptr.id == on_disk.id || ptr.id == on_disk.id + 0x80
            &&& on_disk.chr == ptr.chr
            &&& on_disk.ptr == ptr.ptr
            &&& on_disk.back_block == 0
        }),
{
}

/// A read of a hash from the file of the current block is made through the very
/// pointer that was given, and adds nothing to the bytes that were read before.
pub proof fn law_hash_read_from_file_keeps_the_pointer(
    storage: StorageView,
    ptr: TriePtr,
    before: Seq<u8>,
    after: Seq<u8>,
    r: Result<Served<()>, Error>,
)
    requires
        storage.last_extended != Some(storage.cur_block),
        storage.file_open,
        storage.reads_hash(ptr, before, after, r),
    ensures
        r is Ok,
        r->Ok_0 is OnDisk,
        r->Ok_0->OnDisk_0.id == ptr.id,
        r->Ok_0->OnDisk_0.chr == ptr.chr,
        r->Ok_0->OnDisk_0.ptr == ptr.ptr,
        r->Ok_0->OnDisk_0.back_block == ptr.back_block,
        after == before,
{
}

/// A read from the trie in RAM gives the node at the place of the pointer and
/// its hash, whatever else the pointer holds, and `NotFoundError` exactly if the
/// place is past the nodes there are.
pub proof fn law_read_from_ram_goes_by_place(
    storage: StorageView,
    ptr: TriePtr,
    r: Result<Served<(TrieNodeType, TrieHash)>, Error>,
    before: Seq<u8>,
    after: Seq<u8>,
    h: Result<Served<()>, Error>,
)
    requires
        storage.last_extended == Some(storage.cur_block),
        storage.reads_node(ptr, r),
        storage.reads_hash(ptr, before, after, h),
    ensures
        ({
            let nodes = storage.trie->0.nodes;
            if ptr.ptr < nodes.len() {
                &&& r is Ok && r->Ok_0 is InRam
                &&& r->Ok_0->InRam_0.0@ == nodes[ptr.ptr as int].node
                &&& r->Ok_0->InRam_0.1 == nodes[ptr.ptr as int].hash
                &&& h is Ok && h->Ok_0 is InRam
                &&& after == before + nodes[ptr.ptr as int].hash.0@
            } else {
                &&& r == Err::<Served<(TrieNodeType, TrieHash)>, Error>(Error::NotFoundError)
                &&& h == Err::<Served<()>, Error>(Error::NotFoundError)
                &&& after == before
            }
        }),
{
}

/// A read counts once for the storage, by the tag of the pointer, and once for
/// the trie in RAM if the node is read from there, by the tag without the
/// back-pointer mark. Nothing else changes.
pub proof fn law_read_is_counted(storage: StorageView, ptr: TriePtr)
    requires
        storage.stats.can_count_read(ptr.id),
        storage.last_extended == Some(storage.cur_block) ==> storage.trie is Some
            && storage.trie->0.stats.can_count_read(spec_clear_backptr(ptr.id)),
    ensures
        ({
            let s = storage.stats;
            let after = storage.after_node_read(ptr);
            &&& after.stats.read_count == s.read_count + 1
            &&& after.stats.read_backptr_count == s.read_backptr_count + if ptr.id >= 0x80 {
                1int
            } else {
                0
            }
            &&& after.stats.read_leaf_count == s.read_leaf_count + if ptr.id == 1 {
                1int
            } else {
                0
            }
            &&& after.stats.read_node_count == s.read_node_count + if ptr.id < 0x80 && ptr.id
                != 1 {
                1int
            } else {
                0
            }
            &&& after.cur_block == storage.cur_block
            &&& after.readonly == storage.readonly
            &&& after.file_open == storage.file_open
            &&& after.fork_ptr == storage.fork_ptr
            &&& after.last_extended == storage.last_extended
            &&& after.dir == storage.dir
            &&& storage.last_extended != Some(storage.cur_block) ==> after.trie == storage.trie
            &&& storage.last_extended == Some(storage.cur_block) ==> {
                let t = storage.trie->0.stats;
                let u = after.trie->0.stats;
                &&& after.trie is Some
                &&& after.trie->0.nodes == storage.trie->0.nodes
                &&& after.trie->0.block_header == storage.trie->0.block_header
                &&& after.trie->0.readonly == storage.trie->0.readonly
                &&& after.trie->0.total_bytes == storage.trie->0.total_bytes
                &&& u.read_count == t.read_count + 1
                &&& u.read_backptr_count == t.read_backptr_count
                &&& u.read_leaf_count == t.read_leaf_count + if ptr.id == 1 || ptr.id == 0x81 {
                    1int
                } else {
                    0
                }
                &&& u.write_count == t.write_count
            }
        }),
{
    law_read_counts_by_tag(storage.stats, ptr.id);
    if storage.last_extended == Some(storage.cur_block) {
        law_read_counts_by_tag(storage.trie->0.stats, spec_clear_backptr(ptr.id));
    }
}

/// A write counts once for the storage and changes the trie in RAM, and nothing else.
pub proof fn law_write_changes_the_trie(storage: StorageView, place: u32, record: NodeRecord)
    requires
        storage.can_write(place, record),
        storage.trie is Some,
    ensures
        ({
            let after = storage.after_node_write(place, record);
            &&& storage.last_extended == Some(storage.cur_block)
            &&& after.stats.write_count == storage.stats.write_count + 1
            &&& after.stats.read_count == storage.stats.read_count
            &&& after.cur_block == storage.cur_block
            &&& after.readonly == storage.readonly
            &&& after.file_open == storage.file_open
            &&& after.fork_ptr == storage.fork_ptr
            &&& after.last_extended == storage.last_extended
            &&& after.dir == storage.dir
            &&& after.trie == Some(storage.trie->0.after_write(place, record))
        }),
{
}

/// A node can be written wherever the machine's integers can count it: the
/// current block's trie is in RAM, no counter that a write raises is full, and
/// the bytes of the nodes added so far leave room for those of the node.
pub proof fn law_write_needs_only_room(storage: StorageView, place: u32, record: NodeRecord)
    requires
        storage.last_extended == Some(storage.cur_block),
        storage.stats.write_count < u64::MAX,
        storage.stats.write_node_count < u64::MAX,
        storage.stats.write_leaf_count < u64::MAX,
        storage.trie->0.stats.write_count < u64::MAX,
        storage.trie->0.stats.write_node_count < u64::MAX,
        storage.trie->0.stats.write_leaf_count < u64::MAX,
        storage.trie->0.total_bytes + record.node.byte_len <= usize::MAX,
    ensures
        storage.can_write(place, record),
{
}

} // verus!
