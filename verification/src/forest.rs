//! What is read back from the directory after blocks were saved to it: the same
//! blocks, with the same parents.
use vstd::prelude::*;
use crate::flush::FlushAction;
use crate::hash::{hex_of, lemma_same_bytes, BlockHeaderHash};
use crate::paths::{
    law_block_files_are_distinct, lemma_block_dir_len, spec_block_dir, spec_block_path, spec_join,
};
use crate::runs::{flush_run, law_flush_saves_the_trie, parent_to_name, FlushMove};
use crate::scan::{
    block_named, children_by_parent, children_of, is_partial, law_files_are_recognised,
    law_scan_keeps_parentage, lemma_hex_is_lower, FoundFile,
};

verus! {

/// Whether a run flushes the trie of a block to a directory, and succeeds.
pub open spec fn saves(dir: Seq<char>, run: Seq<FlushMove>) -> bool {
    &&& flush_run(run)
    &&& run[0].before.dir == dir
    &&& run[0].before.last_extended is Some
    &&& run.last().action == FlushAction::Finish(Ok(()))
}

/// The block that a run saves, and its parent, as the fork table had it then.
pub open spec fn saved_block(run: Seq<FlushMove>) -> (BlockHeaderHash, BlockHeaderHash) {
    (run[0].before.last_extended->0, parent_to_name(run[1].event))
}

/// The blocks that some runs save, each with its parent.
pub open spec fn saved_forest(runs: Seq<Seq<FlushMove>>) -> Seq<
    (BlockHeaderHash, BlockHeaderHash),
> {
    Seq::new(runs.len(), |i: int| saved_block(runs[i]))
}

/// Whether some runs each save a block to a directory, and no two the same.
pub open spec fn saves_all(dir: Seq<char>, runs: Seq<Seq<FlushMove>>) -> bool {
    &&& forall|i: int| 0 <= i < runs.len() ==> saves(dir, #[trigger] runs[i])
    &&& forall|i: int, j: int|
        0 <= i < j < runs.len() ==> saved_block(#[trigger] runs[i]).0 != saved_block(
            #[trigger] runs[j],
        ).0
}

/// The files of a directory after some runs, by their paths, each with the hash
/// at its head: what a run writes starts with the parent's hash, and the file in
/// which it was written is renamed.
pub open spec fn files_after(runs: Seq<Seq<FlushMove>>) -> Map<Seq<char>, BlockHeaderHash>
    decreases runs.len(),
{
    if runs.len() == 0 {
        Map::empty()
    } else {
        let run = runs.last();
        files_after(runs.drop_last()).remove(run[3].action->from@).insert(
            run[3].action->to@,
            run[2].action->Write_0.parent,
        )
    }
}

/// A file that is found in a directory, and its path.
pub struct FileEntry {
    pub path: Seq<char>,
    pub file: FoundFile,
}

/// Whether what is found is a file, with the name that ends its path.
pub open spec fn is_entry(entry: FileEntry) -> bool {
    &&& entry.file.is_file
    &&& entry.file.name is Some
    &&& forall|i: int|
        0 <= i < entry.file.name->0@.len() ==> #[trigger] entry.file.name->0@[i] != '/'
    &&& exists|dir: Seq<char>| entry.path == #[trigger] spec_join(dir, entry.file.name->0@)
}

/// Whether some entries are all the files of a directory, each one once.
pub open spec fn lists(files: Map<Seq<char>, BlockHeaderHash>, entries: Seq<FileEntry>) -> bool {
    &&& forall|i: int|
        0 <= i < entries.len() ==> is_entry(#[trigger] entries[i]) && files.dom().contains(
            entries[i].path,
        )
    &&& forall|path: Seq<char>| #[trigger]
        files.dom().contains(path) ==> exists|i: int|
            0 <= i < entries.len() && (#[trigger] entries[i]).path == path
    &&& forall|i: int, j: int|
        0 <= i < j < entries.len() ==> (#[trigger] entries[i]).path != (#[trigger] entries[j]).path
}

/// Whether `blocks` lists the blocks whose files are among some entries, in
/// their order, each with the hash at the head of its file.
pub open spec fn reads_blocks(
    dir: Seq<char>,
    files: Map<Seq<char>, BlockHeaderHash>,
    entries: Seq<FileEntry>,
    blocks: Seq<(BlockHeaderHash, BlockHeaderHash)>,
) -> bool
    decreases entries.len(),
{
    if entries.len() == 0 {
        blocks.len() == 0
    } else {
        match block_named(entries.last().file) {
            Some(bytes) => {
                &&& blocks.len() > 0
                &&& blocks.last().0.0@ == bytes
                &&& blocks.last().1 == files[spec_block_path(dir, blocks.last().0)]
                &&& reads_blocks(dir, files, entries.drop_last(), blocks.drop_last())
            },
            None => reads_blocks(dir, files, entries.drop_last(), blocks),
        }
    }
}

/// After some runs there is the file of each block that was saved, with the
/// parent's hash at its head, and no other file.
proof fn lemma_files_after(dir: Seq<char>, runs: Seq<Seq<FlushMove>>)
    requires
        saves_all(dir, runs),
    ensures
        forall|i: int|
            0 <= i < runs.len() ==> {
                let path = spec_block_path(dir, saved_block(#[trigger] runs[i]).0);
                files_after(runs).dom().contains(path) && files_after(runs)[path] == saved_block(
                    runs[i],
                ).1
            },
        forall|path: Seq<char>| #[trigger]
            files_after(runs).dom().contains(path) ==> exists|i: int|
                0 <= i < runs.len() && path == spec_block_path(
                    dir,
                    saved_block(#[trigger] runs[i]).0,
                ),
    decreases runs.len(),
{
    if runs.len() > 0 {
        let earlier = runs.drop_last();
        let run = runs.last();
        let last = runs.len() - 1;
        assert(saves_all(dir, earlier)) by {
            assert forall|i: int| 0 <= i < earlier.len() implies saves(dir, #[trigger] earlier[i]) by {
                assert(earlier[i] == runs[i]);
            }
            assert forall|i: int, j: int| 0 <= i < j < earlier.len() implies saved_block(
                #[trigger] earlier[i],
            ).0 != saved_block(#[trigger] earlier[j]).0 by {
                assert(earlier[i] == runs[i] && earlier[j] == runs[j]);
            }
        }
        lemma_files_after(dir, earlier);
        assert(saves(dir, runs[last]));
        let bhh = saved_block(run).0;
        law_flush_saves_the_trie(run, bhh);
        assert forall|i: int| 0 <= i < runs.len() implies ({
            let path = spec_block_path(dir, saved_block(#[trigger] runs[i]).0);
            files_after(runs).dom().contains(path) && files_after(runs)[path] == saved_block(
                runs[i],
            ).1
        }) by {
            law_block_files_are_distinct(dir, saved_block(runs[i]).0, bhh);
            if i < last {
                assert(earlier[i] == runs[i]);
                assert(saved_block(runs[i]).0 != saved_block(runs[last]).0);
            }
        }
        assert forall|path: Seq<char>| #[trigger]
            files_after(runs).dom().contains(path) implies exists|i: int|
            0 <= i < runs.len() && path == spec_block_path(
                dir,
                saved_block(#[trigger] runs[i]).0,
            ) by {
            if path == spec_block_path(dir, bhh) {
                assert(saved_block(runs[last]).0 == bhh);
            } else {
                assert(files_after(earlier).dom().contains(path));
                let i = choose|i: int|
                    0 <= i < earlier.len() && path == spec_block_path(
                        dir,
                        saved_block(#[trigger] earlier[i]).0,
                    );
                assert(earlier[i] == runs[i]);
            }
        }
    }
}

/// The name that ends the path of a block's file is the hexadecimal form of the
/// block's hash.
proof fn lemma_name_of_block_file(dir: Seq<char>, bhh: BlockHeaderHash, entry: FileEntry)
    requires
        is_entry(entry),
        entry.path == spec_block_path(dir, bhh),
    ensures
        entry.file.name->0@ == hex_of(bhh.0@),
{
    let name = entry.file.name->0@;
    let hex = hex_of(bhh.0@);
    let base = spec_block_dir(dir, bhh);
    let path = entry.path;
    lemma_block_dir_len(dir, bhh, bhh);
    assert(path == base.push('/') + hex);
    let start = path.len() - name.len();
    let outer = choose|outer: Seq<char>| path == #[trigger] spec_join(outer, name);
    assert(start == 0 || path[start - 1] == '/');
    assert(path.skip(start) =~= name);
    let slash = base.len() as int;
    if start <= slash {
        assert(name[slash - start] == path[slash]);
    } else if start > slash + 1 {
        let i = start - 1 - (slash + 1);
        assert(path[start - 1] == hex[i]);
        lemma_hex_is_lower(bhh, i);
    }
    assert(path.skip(slash + 1) =~= hex);
}

/// What is read of the entries: as many blocks, each the one whose file the
/// entry at its place is.
proof fn lemma_blocks_read(
    dir: Seq<char>,
    runs: Seq<Seq<FlushMove>>,
    entries: Seq<FileEntry>,
    blocks: Seq<(BlockHeaderHash, BlockHeaderHash)>,
)
    requires
        saves_all(dir, runs),
        forall|i: int|
            0 <= i < entries.len() ==> is_entry(#[trigger] entries[i]) && files_after(
                runs,
            ).dom().contains(entries[i].path),
        reads_blocks(dir, files_after(runs), entries, blocks),
    ensures
        blocks.len() == entries.len(),
        forall|i: int|
            0 <= i < entries.len() ==> {
                &&& (#[trigger] entries[i]).path == spec_block_path(dir, blocks[i].0)
                &&& blocks[i].1 == files_after(runs)[entries[i].path]
                &&& !is_partial(entries[i].file)
            },
    decreases entries.len(),
{
    if entries.len() > 0 {
        let last = entries.len() - 1;
        let entry = entries[last];
        lemma_files_after(dir, runs);
        let k = choose|k: int|
            0 <= k < runs.len() && entry.path == spec_block_path(
                dir,
                saved_block(#[trigger] runs[k]).0,
            );
        let bhh = saved_block(runs[k]).0;
        lemma_name_of_block_file(dir, bhh, entry);
        law_files_are_recognised(bhh, entry.file);
        lemma_same_bytes(blocks.last().0, bhh);
        assert forall|i: int| 0 <= i < entries.drop_last().len() implies is_entry(
            #[trigger] entries.drop_last()[i],
        ) && files_after(runs).dom().contains(entries.drop_last()[i].path) by {
            assert(entries.drop_last()[i] == entries[i]);
        }
        lemma_blocks_read(dir, runs, entries.drop_last(), blocks.drop_last());
        assert forall|i: int| 0 <= i < entries.len() implies {
            &&& (#[trigger] entries[i]).path == spec_block_path(dir, blocks[i].0)
            &&& blocks[i].1 == files_after(runs)[entries[i].path]
            &&& !is_partial(entries[i].file)
        } by {
            if i < last {
                assert(entries.drop_last()[i] == entries[i]);
                assert(blocks.drop_last()[i] == blocks[i]);
            }
        }
    }
}

/// After blocks were saved to an empty directory, what is read back from it is
/// the same forest: no file is a partial write, and the blocks that are found,
/// each one once, are those that were saved, with the parents that they had in
/// the fork table then. So are the children of each parent.
pub proof fn law_saved_forest_is_read_back(
    dir: Seq<char>,
    runs: Seq<Seq<FlushMove>>,
    entries: Seq<FileEntry>,
    blocks: Seq<(BlockHeaderHash, BlockHeaderHash)>,
)
    requires
        saves_all(dir, runs),
        lists(files_after(runs), entries),
        reads_blocks(dir, files_after(runs), entries, blocks),
    ensures
        forall|i: int| 0 <= i < entries.len() ==> !is_partial((#[trigger] entries[i]).file),
        blocks.no_duplicates(),
        forall|bhh: BlockHeaderHash, parent: BlockHeaderHash|
            blocks.contains((bhh, parent)) <==> #[trigger] saved_forest(runs).contains(
                (bhh, parent),
            ),
        forall|bhh: BlockHeaderHash, parent: BlockHeaderHash|
            #[trigger] children_of(blocks, parent.0@).contains(bhh) <==> saved_forest(
                runs,
            ).contains((bhh, parent)),
        forall|parent: BlockHeaderHash| #[trigger]
            children_by_parent(blocks).dom().contains(parent.0@) <==> exists|i: int|
                0 <= i < runs.len() && saved_block(#[trigger] runs[i]).1 == parent,
{
    let files = files_after(runs);
    lemma_files_after(dir, runs);
    lemma_blocks_read(dir, runs, entries, blocks);
    assert forall|i: int, j: int| 0 <= i < blocks.len() && 0 <= j < blocks.len() && i
        != j implies blocks[i] != blocks[j] by {
        assert(entries[i].path != entries[j].path);
    }
    assert forall|k: int| 0 <= k < runs.len() implies blocks.contains(
        #[trigger] saved_block(runs[k]),
    ) by {
        let (bhh, parent) = saved_block(runs[k]);
        let path = spec_block_path(dir, bhh);
        assert(files.dom().contains(path));
        let i = choose|i: int| 0 <= i < entries.len() && (#[trigger] entries[i]).path == path;
        law_block_files_are_distinct(dir, bhh, blocks[i].0);
        assert(blocks[i] == (bhh, parent));
    }
    assert forall|i: int| 0 <= i < blocks.len() implies exists|k: int|
        0 <= k < runs.len() && #[trigger] saved_block(runs[k]) == #[trigger] blocks[i] by {
        let path = entries[i].path;
        assert(files.dom().contains(path));
        let k = choose|k: int|
            0 <= k < runs.len() && path == spec_block_path(
                dir,
                saved_block(#[trigger] runs[k]).0,
            );
        law_block_files_are_distinct(dir, saved_block(runs[k]).0, blocks[i].0);
        assert(saved_block(runs[k]) == blocks[i]);
    }
    assert forall|bhh: BlockHeaderHash, parent: BlockHeaderHash|
        blocks.contains((bhh, parent)) <==> #[trigger] saved_forest(runs).contains(
            (bhh, parent),
        ) by {
        if blocks.contains((bhh, parent)) {
            let i = choose|i: int| 0 <= i < blocks.len() && blocks[i] == (bhh, parent);
            let k = choose|k: int|
                0 <= k < runs.len() && #[trigger] saved_block(runs[k]) == blocks[i];
            assert(saved_forest(runs)[k] == (bhh, parent));
        }
        if saved_forest(runs).contains((bhh, parent)) {
            let k = choose|k: int|
                0 <= k < saved_forest(runs).len() && saved_forest(runs)[k] == (bhh, parent);
            assert(blocks.contains(saved_block(runs[k])));
        }
    }
    assert forall|bhh: BlockHeaderHash, parent: BlockHeaderHash|
        #[trigger] children_of(blocks, parent.0@).contains(bhh) <==> saved_forest(runs).contains(
            (bhh, parent),
        ) by {
        law_scan_keeps_parentage(blocks, parent.0@, bhh);
        if children_of(blocks, parent.0@).contains(bhh) {
            let i = choose|i: int|
                0 <= i < blocks.len() && (#[trigger] blocks[i]).0 == bhh && blocks[i].1.0@
                    == parent.0@;
            lemma_same_bytes(blocks[i].1, parent);
            assert(blocks[i] == (bhh, parent));
            assert(blocks.contains((bhh, parent)));
        }
        if saved_forest(runs).contains((bhh, parent)) {
            assert(blocks.contains((bhh, parent)));
            let i = choose|i: int| 0 <= i < blocks.len() && blocks[i] == (bhh, parent);
            assert(blocks[i].0 == bhh && blocks[i].1.0@ == parent.0@);
        }
    }
    assert forall|parent: BlockHeaderHash| #[trigger]
        children_by_parent(blocks).dom().contains(parent.0@) <==> exists|k: int|
            0 <= k < runs.len() && saved_block(#[trigger] runs[k]).1 == parent by {
        if children_by_parent(blocks).dom().contains(parent.0@) {
            let i = choose|i: int|
                0 <= i < blocks.len() && (#[trigger] blocks[i]).1.0@ == parent.0@;
            lemma_same_bytes(blocks[i].1, parent);
            let k = choose|k: int|
                0 <= k < runs.len() && #[trigger] saved_block(runs[k]) == blocks[i];
            assert(saved_block(runs[k]).1 == parent);
        }
        if exists|k: int| 0 <= k < runs.len() && saved_block(#[trigger] runs[k]).1 == parent {
            let k = choose|k: int|
                0 <= k < runs.len() && saved_block(#[trigger] runs[k]).1 == parent;
            assert(blocks.contains(saved_block(runs[k])));
            let i = choose|i: int| 0 <= i < blocks.len() && blocks[i] == saved_block(runs[k]);
            assert(blocks[i].1.0@ == parent.0@);
        }
    }
}

} // verus!
