//! Making sense of the files in the storage directory: which ones hold
//! blocks, which ones were never written out completely, and which block is
//! the parent of which.
use vstd::prelude::*;
use crate::hash::{bytes_of_hex, hex_of, is_hash_text, law_hex_round_trip, BlockHeaderHash};
use crate::index::{lists_of, HashIndex};
use crate::paths::tmp_name;
use crate::storage::TrieFileStorage;

verus! {

/// What was found in the storage directory: whether it is a file, and its name
/// if that is a text.
#[derive(Debug, PartialEq, Eq)]
pub struct FoundFile {
    pub is_file: bool,
    pub name: Option<String>,
}

/// Whether a character is a lower-case hexadecimal digit.
pub open spec fn is_lower_hex(c: char) -> bool {
    '0' <= c <= '9' || 'a' <= c <= 'f'
}

/// Whether a name is that of a file in which a block is being written: 64
/// lower-case hexadecimal digits and `.tmp`.
pub open spec fn is_tmp_name(name: Seq<char>) -> bool {
    &&& name.len() == 68
    &&& forall|i: int| 0 <= i < 64 ==> is_lower_hex(#[trigger] name[i])
    &&& name[64] == '.'
    &&& name[65] == 't'
    &&& name[66] == 'm'
    &&& name[67] == 'p'
}

/// The block whose file this is, if it is a block's.
pub open spec fn block_named(file: FoundFile) -> Option<Seq<u8>> {
    match file.name {
        Some(name) => if file.is_file && is_hash_text(name@) {
            Some(bytes_of_hex(name@))
        } else {
            None
        },
        None => None,
    }
}

/// Whether a file is one in which a block was being written.
pub open spec fn is_partial(file: FoundFile) -> bool {
    match file.name {
        Some(name) => file.is_file && is_tmp_name(name@),
        None => false,
    }
}

/// Whether `partial` lists the positions of all files in which a block was
/// being written, and of no others, in the order of the files.
pub open spec fn finds_partial(files: Seq<FoundFile>, partial: Seq<usize>) -> bool {
    &&& forall|k: int|
        0 <= k < partial.len() ==> #[trigger] partial[k] < files.len() && is_partial(
            files[partial[k] as int],
        )
    &&& forall|k: int, l: int| 0 <= k < l < partial.len() ==> partial[k] < partial[l]
    &&& forall|i: int|
        0 <= i < files.len() && is_partial(#[trigger] files[i]) ==> partial.contains(i as usize)
}

/// `regex::Regex::new` and `regex::Regex::is_match`, for one pattern: a text
/// matches it exactly if it consists of 64 characters out of `0` to `9` and `a`
/// to `f`, then `.tmp`, from its beginning to its end.
#[verifier::external_body]
fn regex_is_match(pattern: &str, text: &str) -> (matches: bool)
    requires
        pattern@ == "^[0-9a-f]{64}[.]tmp$"@,
    ensures
        matches == is_tmp_name(text@),
{
    regex::Regex::new(pattern).unwrap().is_match(text)
}

/// Which block has which children: for each parent, its children in the order
/// in which they come in a list of blocks with their parents.
pub open spec fn children_by_parent(blocks: Seq<(BlockHeaderHash, BlockHeaderHash)>) -> Map<
    Seq<u8>,
    Seq<BlockHeaderHash>,
> {
    Map::new(
        |parent: Seq<u8>|
            exists|i: int| 0 <= i < blocks.len() && (#[trigger] blocks[i]).1.0@ == parent,
        |parent: Seq<u8>| children_of(blocks, parent),
    )
}

/// The blocks of a list that have a given parent, in the order in which they come.
pub open spec fn children_of(
    blocks: Seq<(BlockHeaderHash, BlockHeaderHash)>,
    parent: Seq<u8>,
) -> Seq<BlockHeaderHash>
    decreases blocks.len(),
{
    if blocks.len() == 0 {
        Seq::empty()
    } else {
        let before = children_of(blocks.drop_last(), parent);
        if blocks.last().1.0@ == parent {
            before.push(blocks.last().0)
        } else {
            before
        }
    }
}

/// Only a parent of some block of the list has children.
proof fn lemma_no_children(blocks: Seq<(BlockHeaderHash, BlockHeaderHash)>, parent: Seq<u8>)
    requires
        forall|i: int| 0 <= i < blocks.len() ==> (#[trigger] blocks[i]).1.0@ != parent,
    ensures
        children_of(blocks, parent) == Seq::<BlockHeaderHash>::empty(),
    decreases blocks.len(),
{
    if blocks.len() > 0 {
        assert(blocks.last() == blocks[blocks.len() - 1]);
        assert forall|i: int| 0 <= i < blocks.drop_last().len() implies (
        #[trigger] blocks.drop_last()[i]).1.0@ != parent by {
            assert(blocks.drop_last()[i] == blocks[i]);
        }
        lemma_no_children(blocks.drop_last(), parent);
    }
}

/// One more block joins the children of its parent, and no others.
proof fn lemma_one_more_block(
    blocks: Seq<(BlockHeaderHash, BlockHeaderHash)>,
    next: (BlockHeaderHash, BlockHeaderHash),
)
    ensures
        children_by_parent(blocks.push(next)) == children_by_parent(blocks).insert(
            next.1.0@,
            if children_by_parent(blocks).dom().contains(next.1.0@) {
                children_by_parent(blocks)[next.1.0@].push(next.0)
            } else {
                seq![next.0]
            },
        ),
{
    let longer = blocks.push(next);
    let parent = next.1.0@;
    assert(longer.drop_last() =~= blocks);
    assert(longer.last() == next);
    if !children_by_parent(blocks).dom().contains(parent) {
        lemma_no_children(blocks, parent);
        assert(children_of(longer, parent) =~= seq![next.0]);
    }
    assert forall|p: Seq<u8>| #[trigger]
        children_by_parent(longer).dom().contains(p) <==> (p == parent || children_by_parent(
            blocks,
        ).dom().contains(p)) by {
        if children_by_parent(blocks).dom().contains(p) {
            let i = choose|i: int| 0 <= i < blocks.len() && (#[trigger] blocks[i]).1.0@ == p;
            assert(longer[i].1.0@ == p);
        }
        if p == parent {
            assert(longer[blocks.len() as int].1.0@ == p);
        }
        if children_by_parent(longer).dom().contains(p) && p != parent {
            let i = choose|i: int| 0 <= i < longer.len() && (#[trigger] longer[i]).1.0@ == p;
            assert(blocks[i].1.0@ == p);
        }
    }
    assert(children_by_parent(longer) =~= children_by_parent(blocks).insert(
        parent,
        if children_by_parent(blocks).dom().contains(parent) {
            children_by_parent(blocks)[parent].push(next.0)
        } else {
            seq![next.0]
        },
    ));
}

impl TrieFileStorage {
    /// The block whose file was found, if it is a block's: a file whose name is
    /// the hexadecimal form of a hash.
    pub fn block_of_file(file: &FoundFile) -> (block: Option<BlockHeaderHash>)
        ensures
            match block {
                Some(bhh) => block_named(*file) == Some(bhh.0@),
                None => block_named(*file) is None,
            },
    {
        if !file.is_file {
            return None;
        }
        match &file.name {
            Some(name) => BlockHeaderHash::from_hex(name.as_str()),
            None => None,
        }
    }

    /// Out of the blocks that were found, each with its parent, all parents
    /// with their children.
    pub fn scan_blocks(blocks: &Vec<(BlockHeaderHash, BlockHeaderHash)>) -> (parent_children:
        HashIndex<Vec<BlockHeaderHash>>)
        ensures
            parent_children.wf(),
            lists_of(parent_children) == children_by_parent(blocks@),
    {
        let mut parent_children: HashIndex<Vec<BlockHeaderHash>> = HashIndex::new();
        assert(lists_of(parent_children) =~= children_by_parent(blocks@.take(0)));
        for i in 0..blocks.len()
            invariant
                parent_children.wf(),
                lists_of(parent_children) == children_by_parent(blocks@.take(i as int)),
        {
            let (bhh, bhh_parent) = blocks[i];
            proof {
                lemma_one_more_block(blocks@.take(i as int), blocks@[i as int]);
                assert(blocks@.take(i as int).push(blocks@[i as int]) =~= blocks@.take(i + 1));
                assert(parent_children@.dom() =~= lists_of(parent_children).dom());
            }
            parent_children.append(bhh_parent.0, bhh);
        }
        assert(blocks@.take(blocks@.len() as int) =~= blocks@);
        parent_children
    }

    /// Whether a file that was found is one in which a block was being written.
    pub fn is_partial_write(file: &FoundFile) -> (partial: bool)
        ensures
            partial == is_partial(*file),
    {
        if !file.is_file {
            return false;
        }
        match &file.name {
            Some(name) => regex_is_match("^[0-9a-f]{64}[.]tmp$", name.as_str()),
            None => false,
        }
    }

    /// Finds all partially-written files, and returns the list of their
    /// positions among the files that were found.
    pub fn scan_tmp_blocks(files: &Vec<FoundFile>) -> (partial: Vec<usize>)
        ensures
            finds_partial(files@, partial@),
    {
        let mut partial: Vec<usize> = Vec::new();
        for i in 0..files.len()
            invariant
                forall|k: int| 0 <= k < partial@.len() ==> #[trigger] partial@[k] < i
                    && is_partial(files@[partial@[k] as int]),
                forall|k: int, l: int| 0 <= k < l < partial@.len() ==> partial@[k] < partial@[l],
                forall|j: int|
                    0 <= j < i && is_partial(#[trigger] files@[j]) ==> partial@.contains(j as usize),
        {
            let ghost before = partial@;
            if TrieFileStorage::is_partial_write(&files[i]) {
                partial.push(i);
                assert(partial@[before.len() as int] == i);
            }
            assert forall|j: int|
                0 <= j < i + 1 && is_partial(#[trigger] files@[j]) implies partial@.contains(
                j as usize,
            ) by {
                if j < i {
                    let k = choose|k: int| 0 <= k < before.len() && before[k] == j as usize;
                    assert(partial@[k] == j as usize);
                }
            }
        }
        partial
    }
}

/// The hexadecimal form of a hash consists of lower-case digits.
pub(crate) proof fn lemma_hex_is_lower(bhh: BlockHeaderHash, i: int)
    requires
        0 <= i < 64,
    ensures
        is_lower_hex(hex_of(bhh.0@)[i]),
{
    let byte = bhh.0@[i / 2];
    assert(0 <= byte as int / 16 < 16);
    assert(0 <= byte as int % 16 < 16);
}

/// The name of a file in which a block is being written is of the form that such names have.
proof fn lemma_tmp_name(bhh: BlockHeaderHash)
    ensures
        is_tmp_name(tmp_name(bhh)),
{
    let name = tmp_name(bhh);
    assert forall|i: int| 0 <= i < 64 implies is_lower_hex(#[trigger] name[i]) by {
        assert(name[i] == hex_of(bhh.0@)[i]);
        lemma_hex_is_lower(bhh, i);
    }
}

/// The file of a block is recognised as that block's and not as a partial
/// write; the file in which a block is being written is recognised as a
/// partial write and not as a block's.
pub proof fn law_files_are_recognised(bhh: BlockHeaderHash, file: FoundFile)
    requires
        file.is_file,
        file.name is Some,
    ensures
        file.name->0@ == hex_of(bhh.0@) ==> block_named(file) == Some(bhh.0@) && !is_partial(file),
        file.name->0@ == tmp_name(bhh) ==> block_named(file) is None && is_partial(file),
{
    law_hex_round_trip(bhh);
    lemma_tmp_name(bhh);
}

/// Whether a file is one of some files, and at none of the given positions.
pub open spec fn is_left(files: Seq<FoundFile>, removed: Seq<usize>, file: FoundFile) -> bool {
    exists|i: int|
        0 <= i < files.len() && #[trigger] files[i] == file && !removed.contains(i as usize)
}

/// Once the partially-written files that were found have been removed, none is
/// found among those that are left.
pub proof fn law_recovery_leaves_no_partial_write(
    files: Seq<FoundFile>,
    partial: Seq<usize>,
    left: Seq<FoundFile>,
    partial_left: Seq<usize>,
)
    requires
        finds_partial(files, partial),
        forall|j: int|
            0 <= j < left.len() ==> is_left(files, partial, #[trigger] left[j]),
        finds_partial(left, partial_left),
    ensures
        partial_left.len() == 0,
{
    if partial_left.len() > 0 {
        let j = partial_left[0] as int;
        assert(is_partial(left[j]));
        assert(is_left(files, partial, left[j]));
    }
}

/// Every block that was found is among the children of its parent, and every
/// child is a block that was found with that parent.
pub proof fn law_scan_keeps_parentage(
    blocks: Seq<(BlockHeaderHash, BlockHeaderHash)>,
    parent: Seq<u8>,
    child: BlockHeaderHash,
)
    ensures
        children_of(blocks, parent).contains(child) <==> exists|i: int|
            0 <= i < blocks.len() && (#[trigger] blocks[i]).0 == child && blocks[i].1.0@ == parent,
    decreases blocks.len(),
{
    if blocks.len() > 0 {
        let before = blocks.drop_last();
        let list = children_of(before, parent);
        law_scan_keeps_parentage(before, parent, child);
        if children_of(blocks, parent).contains(child) {
            if list.contains(child) {
                let i = choose|i: int|
                    0 <= i < before.len() && (#[trigger] before[i]).0 == child && before[i].1.0@
                        == parent;
                assert(blocks[i].0 == child);
            } else {
                assert(blocks[blocks.len() - 1].0 == child);
            }
        }
        if exists|i: int|
            0 <= i < blocks.len() && (#[trigger] blocks[i]).0 == child && blocks[i].1.0@
                == parent {
            let i = choose|i: int|
                0 <= i < blocks.len() && (#[trigger] blocks[i]).0 == child && blocks[i].1.0@
                    == parent;
            if i < before.len() {
                assert(before[i].0 == child);
                let k = choose|k: int| 0 <= k < list.len() && list[k] == child;
                assert(children_of(blocks, parent)[k] == child);
            } else {
                assert(children_of(blocks, parent)[list.len() as int] == child);
            }
        }
    }
}

/// A name is that of a file in which a block is being written exactly if it has
/// 68 characters, the first 64 out of `0` to `9` and `a` to `f`, and then `.tmp`.
pub proof fn law_tmp_names(name: Seq<char>)
    ensures
        is_tmp_name(name) <==> name.len() == 68 && name.skip(64) == seq!['.', 't', 'm', 'p'] && (
        forall|i: int|
            0 <= i < 64 ==> {
                let c = (#[trigger] name[i]) as int;
                48 <= c <= 57 || 97 <= c <= 102
            }),
{
    if name.len() == 68 {
        let end = name.skip(64);
        assert(end[0] == name[64] && end[1] == name[65] && end[2] == name[66] && end[3]
            == name[67]);
        if is_tmp_name(name) {
            assert(end =~= seq!['.', 't', 'm', 'p']);
            assert forall|i: int| 0 <= i < 64 implies {
                let c = (#[trigger] name[i]) as int;
                48 <= c <= 57 || 97 <= c <= 102
            } by {
                assert(is_lower_hex(name[i]));
            }
        }
    }
}

/// What was found holds a block exactly if it is a file whose name is a text of
/// a hash, and the block is the one with that hash; it is a partial write exactly
/// if it is a file with the name of one.
pub proof fn law_found_files(file: FoundFile)
    ensures
        block_named(file) is Some <==> file.is_file && file.name is Some && is_hash_text(
            file.name->0@,
        ),
        block_named(file) is Some ==> block_named(file)->0 == bytes_of_hex(file.name->0@),
        is_partial(file) <==> file.is_file && file.name is Some && is_tmp_name(file.name->0@),
{
}

/// The positions that are found are those of the partial writes, each one once,
/// in ascending order.
pub proof fn law_partial_writes_are_found(
    files: Seq<FoundFile>,
    partial: Seq<usize>,
    i: usize,
    k: int,
    l: int,
)
    requires
        finds_partial(files, partial),
    ensures
        partial.contains(i) <==> i < files.len() && is_partial(files[i as int]),
        0 <= k < l < partial.len() ==> partial[k] < partial[l],
{
    if partial.contains(i) {
        let p = choose|p: int| 0 <= p < partial.len() && partial[p] == i;
        assert(partial[p] < files.len() && is_partial(files[partial[p] as int]));
    }
    if i < files.len() && is_partial(files[i as int]) {
        assert(partial.contains((i as int) as usize));
    }
}

/// A block that is found behind others becomes the last child of its parent, and
/// the children of all other blocks stay the same. Of no blocks there are no children.
pub proof fn law_next_block_is_the_last_child(
    blocks: Seq<(BlockHeaderHash, BlockHeaderHash)>,
    bhh: BlockHeaderHash,
    parent: BlockHeaderHash,
    other: Seq<u8>,
)
    ensures
        children_of(blocks.push((bhh, parent)), parent.0@) == children_of(blocks, parent.0@).push(
            bhh,
        ),
        other != parent.0@ ==> children_of(blocks.push((bhh, parent)), other) == children_of(
            blocks,
            other,
        ),
        children_of(Seq::empty(), other).len() == 0,
{
    assert(blocks.push((bhh, parent)).drop_last() =~= blocks);
}

/// The table has an entry for each block that is some block's parent, and for no
/// other, and the entry is the list of its children.
pub proof fn law_table_holds_the_children(
    blocks: Seq<(BlockHeaderHash, BlockHeaderHash)>,
    parent: Seq<u8>,
)
    ensures
        children_by_parent(blocks).dom().contains(parent) <==> exists|i: int|
            0 <= i < blocks.len() && (#[trigger] blocks[i]).1.0@ == parent,
        children_by_parent(blocks).dom().contains(parent) ==> children_by_parent(blocks)[parent]
            == children_of(blocks, parent) && children_of(blocks, parent).len() > 0,
{
    if children_by_parent(blocks).dom().contains(parent) {
        let i = choose|i: int| 0 <= i < blocks.len() && (#[trigger] blocks[i]).1.0@ == parent;
        law_scan_keeps_parentage(blocks, parent, blocks[i].0);
        assert(blocks[i].0 == blocks[i].0 && blocks[i].1.0@ == parent);
    }
}

} // verus!
