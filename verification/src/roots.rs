//! The root hashes of the tries: which blocks to read them for, where to read
//! them, and the table that leads from a root hash back to its block.
use vstd::prelude::*;
use crate::error::Error;
use crate::hash::{trie_hash_from_bytes, BlockHeaderHash, TrieHash};
use crate::index::HashIndex;
use crate::node::{set_backptr, TrieNodeID, TriePtr};
use crate::paths::{law_block_path_parts, spec_block_path, spec_block_path_tmp};
use crate::storage::{
    law_sentinel_is_all_ones, spec_block_sentinel, StorageView, TrieFileStorage,
};

verus! {

/// What has come of the last action on the way to a block's root hash.
#[derive(Debug, PartialEq, Eq)]
pub enum RootEvent {
    /// The root hash of a block is to be read.
    Requested,
    /// It was read from the block's file.
    ReadFromFile(Result<TrieHash, Error>),
    /// It was read from the file in which the block is being written.
    ReadFromTmp(Result<TrieHash, Error>),
}

/// What to do next to read a block's root hash.
#[derive(Debug, PartialEq, Eq)]
pub enum RootAction {
    /// Read it from the file at this path, the block's.
    ReadFile(String),
    /// Read it from the file at this path, the one in which the block is being written.
    ReadTmp(String),
    /// The root hash, or why there is none.
    Finish(Result<TrieHash, Error>),
}

/// The steps to read a block's root hash: what follows an event.
pub open spec fn root_step(
    dir: Seq<char>,
    bhh: BlockHeaderHash,
    event: RootEvent,
    action: RootAction,
) -> bool {
    match event {
        RootEvent::Requested => {
            &&& action matches RootAction::ReadFile(path)
            &&& path@ == spec_block_path(dir, bhh)
        },
        RootEvent::ReadFromFile(Ok(hash)) => action == RootAction::Finish(Ok(hash)),
        RootEvent::ReadFromFile(Err(_)) => {
            &&& action matches RootAction::ReadTmp(path)
            &&& path@ == spec_block_path_tmp(dir, bhh)
        },
        RootEvent::ReadFromTmp(outcome) => action == RootAction::Finish(outcome),
    }
}

/// Those of some blocks that are blocks, not the sentinel, in the same order.
pub open spec fn real_blocks(blocks: Seq<BlockHeaderHash>) -> Seq<BlockHeaderHash>
    decreases blocks.len(),
{
    if blocks.len() == 0 {
        Seq::empty()
    } else {
        let before = real_blocks(blocks.drop_last());
        if blocks.last() == spec_block_sentinel() {
            before
        } else {
            before.push(blocks.last())
        }
    }
}

/// The blocks of a fork table, fork by fork, without the sentinel.
pub open spec fn blocks_of_forks(forks: Seq<Vec<BlockHeaderHash>>) -> Seq<BlockHeaderHash>
    decreases forks.len(),
{
    if forks.len() == 0 {
        Seq::empty()
    } else {
        blocks_of_forks(forks.drop_last()) + real_blocks(forks.last()@)
    }
}

impl TrieFileStorage {
    /// The next step to read the root hash of a block for the table of root
    /// hashes: a block that has no readable file of its own may have one in
    /// which it is being written.
    pub fn root_hash_step(&self, bhh: &BlockHeaderHash, event: RootEvent) -> (action: RootAction)
        ensures
            root_step(self@.dir, *bhh, event, action),
    {
        match event {
            RootEvent::Requested => RootAction::ReadFile(
                TrieFileStorage::block_path(&self.dir_path, bhh),
            ),
            RootEvent::ReadFromFile(Ok(hash)) => RootAction::Finish(Ok(hash)),
            RootEvent::ReadFromFile(Err(_)) => RootAction::ReadTmp(
                TrieFileStorage::block_path_tmp(&self.dir_path, bhh),
            ),
            RootEvent::ReadFromTmp(outcome) => RootAction::Finish(outcome),
        }
    }

    /// The blocks of a fork table for which there are root hashes to read:
    /// those of all forks, without the sentinel.
    pub fn blocks_with_roots(forks: &Vec<Vec<BlockHeaderHash>>) -> (blocks: Vec<BlockHeaderHash>)
        ensures
            blocks@ == blocks_of_forks(forks@),
    {
        let mut blocks: Vec<BlockHeaderHash> = Vec::new();
        assert(forks@.take(0) =~= Seq::<Vec<BlockHeaderHash>>::empty());
        assert(blocks@ =~= blocks_of_forks(forks@.take(0)));
        for i in 0..forks.len()
            invariant
                blocks@ == blocks_of_forks(forks@.take(i as int)),
        {
            let column = &forks[i];
            let ghost before = blocks@;
            assert(column@.take(0) =~= Seq::<BlockHeaderHash>::empty());
            assert(before + real_blocks(column@.take(0)) =~= before);
            for j in 0..column.len()
                invariant
                    blocks@ == before + real_blocks(column@.take(j as int)),
            {
                let bhh: BlockHeaderHash = column[j];
                assert(column@.take(j + 1).drop_last() =~= column@.take(j as int));
                assert(column@.take(j + 1).last() == bhh);
                if bhh != TrieFileStorage::block_sentinel() {
                    blocks.push(bhh);
                }
                assert(blocks@ =~= before + real_blocks(column@.take(j + 1)));
            }
            assert(column@.take(column@.len() as int) =~= column@);
            assert(forks@.take(i + 1).drop_last() =~= forks@.take(i as int));
            assert(forks@.take(i + 1).last() == *column);
        }
        assert(forks@.take(forks@.len() as int) =~= forks@);
        blocks
    }
}

/// A root hash is read for every block of the fork table, and never for the sentinel.
pub proof fn law_real_blocks_are_kept(blocks: Seq<BlockHeaderHash>, bhh: BlockHeaderHash)
    ensures
        real_blocks(blocks).contains(bhh) <==> blocks.contains(bhh) && bhh
            != spec_block_sentinel(),
    decreases blocks.len(),
{
    if blocks.len() > 0 {
        let before = blocks.drop_last();
        law_real_blocks_are_kept(before, bhh);
        assert(blocks.contains(bhh) <==> before.contains(bhh) || blocks.last() == bhh) by {
            if before.contains(bhh) {
                let i = choose|i: int| 0 <= i < before.len() && before[i] == bhh;
                assert(blocks[i] == bhh);
            }
            if blocks.contains(bhh) {
                let i = choose|i: int| 0 <= i < blocks.len() && blocks[i] == bhh;
                if i < before.len() {
                    assert(before[i] == bhh);
                }
            }
        }
        let kept = real_blocks(before);
        if blocks.last() != spec_block_sentinel() {
            assert(kept.push(blocks.last()).contains(bhh) <==> kept.contains(bhh) || blocks.last()
                == bhh) by {
                if kept.contains(bhh) {
                    let i = choose|i: int| 0 <= i < kept.len() && kept[i] == bhh;
                    assert(kept.push(blocks.last())[i] == bhh);
                }
                assert(kept.push(blocks.last())[kept.len() as int] == blocks.last());
            }
        }
    }
}

/// Which block has which root hash: of the blocks of a list, each with its
/// root hash, the last one for each hash.
pub open spec fn blocks_by_root(roots: Seq<(TrieHash, BlockHeaderHash)>) -> Map<
    Seq<u8>,
    BlockHeaderHash,
>
    decreases roots.len(),
{
    if roots.len() == 0 {
        Map::empty()
    } else {
        blocks_by_root(roots.drop_last()).insert(roots.last().0.0@, roots.last().1)
    }
}

/// Whether the `i`-th block of a list is the last one with a root hash.
pub open spec fn is_last_with_root(
    roots: Seq<(TrieHash, BlockHeaderHash)>,
    root: Seq<u8>,
    i: int,
) -> bool {
    &&& 0 <= i < roots.len()
    &&& roots[i].0.0@ == root
    &&& forall|j: int| i < j < roots.len() ==> (#[trigger] roots[j]).0.0@ != root
}

/// The table of root hashes leads from a root hash to the last block that has
/// it, and from any other hash nowhere.
pub proof fn law_table_leads_to_last_block(
    roots: Seq<(TrieHash, BlockHeaderHash)>,
    root: Seq<u8>,
)
    ensures
        match blocks_by_root(roots).dom().contains(root) {
            true => exists|i: int| #[trigger]
                is_last_with_root(roots, root, i) && blocks_by_root(roots)[root] == roots[i].1,
            false => forall|i: int| 0 <= i < roots.len() ==> (#[trigger] roots[i]).0.0@ != root,
        },
    decreases roots.len(),
{
    if roots.len() > 0 {
        let before = roots.drop_last();
        let last = roots.len() - 1;
        law_table_leads_to_last_block(before, root);
        if roots.last().0.0@ == root {
            assert(is_last_with_root(roots, root, last));
        } else if blocks_by_root(before).dom().contains(root) {
            let i = choose|i: int| #[trigger]
                is_last_with_root(before, root, i) && blocks_by_root(before)[root] == before[i].1;
            assert forall|j: int| i < j < roots.len() implies (#[trigger] roots[j]).0.0@
                != root by {
                if j < last {
                    assert(before[j].0.0@ != root);
                }
            }
            assert(is_last_with_root(roots, root, i));
        } else {
            assert forall|i: int| 0 <= i < roots.len() implies (#[trigger] roots[i]).0.0@
                != root by {
                if i < last {
                    assert(before[i].0.0@ != root);
                }
            }
        }
    }
}

impl TrieFileStorage {
    /// The blocks by their root hashes: those that were read from files, and
    /// the one whose trie is in RAM. If that trie has no root, it is taken out
    /// of RAM and lost.
    pub fn read_root_to_block_table(&mut self, roots: &Vec<(TrieHash, BlockHeaderHash)>) -> (r:
        Result<HashIndex<BlockHeaderHash>, Error>)
        requires
            old(self).wf(),
        ensures
            final(self).wf(),
            match old(self)@.last_extended {
                Some(bhh) => {
                    let nodes = old(self)@.trie->0.nodes;
                    if nodes.len() > 0 {
                        &&& r matches Ok(table)
                        &&& table.wf()
                        &&& table@ == blocks_by_root(roots@).insert(nodes[0].hash.0@, bhh)
                        &&& final(self)@ == old(self)@
                    } else {
                        &&& r == Err::<HashIndex<BlockHeaderHash>, Error>(Error::NotFoundError)
                        &&& final(self)@ == (StorageView {
                            last_extended: None,
                            trie: None,
                            ..old(self)@
                        })
                    }
                },
                None => {
                    &&& r matches Ok(table)
                    &&& table.wf()
                    &&& table@ == blocks_by_root(roots@)
                    &&& final(self)@ == old(self)@
                },
            },
    {
        let mut table: HashIndex<BlockHeaderHash> = HashIndex::new();
        assert(roots@.take(0) =~= Seq::<(TrieHash, BlockHeaderHash)>::empty());
        for i in 0..roots.len()
            invariant
                table.wf(),
                table@ == blocks_by_root(roots@.take(i as int)),
        {
            let (root_hash, bhh) = roots[i];
            assert(roots@.take(i + 1).drop_last() =~= roots@.take(i as int));
            table.insert(root_hash.0, bhh);
        }
        assert(roots@.take(roots@.len() as int) =~= roots@);
        match (self.last_extended.take(), self.last_extended_trie.take()) {
            (Some(bhh), Some(mut trie_ram)) => {
                let ptr = TriePtr::new(set_backptr(TrieNodeID::Node256), 0, 0);
                let mut root_hash_bytes: Vec<u8> = Vec::new();
                match trie_ram.read_node_hash_bytes(&ptr, &mut root_hash_bytes) {
                    Ok(()) => {},
                    Err(e) => {
                        return Err(e);
                    },
                }
                let root_hash = trie_hash_from_bytes(&root_hash_bytes);
                assert(root_hash.0@ =~= old(self)@.trie->0.nodes[0].hash.0@);
                table.insert(root_hash.0, bhh);
                self.last_extended = Some(bhh);
                self.last_extended_trie = Some(trie_ram);
            },
            (_, _) => {},
        }
        Ok(table)
    }
}

/// A root hash is read from the block's file; if that fails, for whatever reason,
/// it is read from the file in which the block is being written, whose path is
/// the same with `.tmp` behind it; and what comes of that is the answer.
pub proof fn law_root_hash_has_two_sources(
    dir: Seq<char>,
    bhh: BlockHeaderHash,
    file: Result<TrieHash, Error>,
    tmp: Result<TrieHash, Error>,
    first: RootAction,
    second: RootAction,
    third: RootAction,
)
    requires
        root_step(dir, bhh, RootEvent::Requested, first),
        root_step(dir, bhh, RootEvent::ReadFromFile(file), second),
        root_step(dir, bhh, RootEvent::ReadFromTmp(tmp), third),
    ensures
        first is ReadFile,
        first->ReadFile_0@ == spec_block_path(dir, bhh),
        file is Ok ==> second == RootAction::Finish(file),
        file is Err ==> second is ReadTmp && second->ReadTmp_0@ == spec_block_path(dir, bhh)
            + seq!['.', 't', 'm', 'p'],
        third == RootAction::Finish(tmp),
{
    law_block_path_parts(dir, bhh);
}

/// The blocks to read root hashes for are those of all forks, one after the
/// other, without those all of whose bytes are 255. One more block of the last
/// fork, or one more fork, adds its own behind the others.
pub proof fn law_blocks_of_forks_in_order(
    forks: Seq<Vec<BlockHeaderHash>>,
    fork: Vec<BlockHeaderHash>,
    blocks: Seq<BlockHeaderHash>,
    bhh: BlockHeaderHash,
)
    ensures
        blocks_of_forks(Seq::empty()).len() == 0,
        blocks_of_forks(forks.push(fork)) == blocks_of_forks(forks) + real_blocks(fork@),
        real_blocks(Seq::empty()).len() == 0,
        real_blocks(blocks.push(bhh)) == if forall|k: int|
            0 <= k < 32 ==> #[trigger] bhh.0@[k] == 255 {
            real_blocks(blocks)
        } else {
            real_blocks(blocks).push(bhh)
        },
{
    assert(forks.push(fork).drop_last() =~= forks);
    assert(blocks.push(bhh).drop_last() =~= blocks);
    law_sentinel_is_all_ones(bhh);
}

} // verus!
