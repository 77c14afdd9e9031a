//! Where the trie of a block lies on disk. Paths are texts in which `/`
//! separates the directories.
use vstd::prelude::*;
use crate::hash::{
    bytes_of_hex, hex_of, is_hash_text, law_hex_round_trip, lemma_same_bytes, BlockHeaderHash,
};
use crate::storage::TrieFileStorage;

verus! {

/// The path of `name` in directory `dir`, where `name` is not itself a path.
pub open spec fn spec_join(dir: Seq<char>, name: Seq<char>) -> Seq<char> {
    if dir.len() == 0 || dir.last() == '/' {
        dir + name
    } else {
        dir.push('/') + name
    }
}

/// The directory that the file of a block is in: two levels, named after the
/// last byte of the block's hash and the one before it.
pub open spec fn spec_block_dir(dir: Seq<char>, bhh: BlockHeaderHash) -> Seq<char> {
    spec_join(spec_join(dir, hex_of(seq![bhh.0@[31]])), hex_of(seq![bhh.0@[30]]))
}

/// The path of the file of a block.
pub open spec fn spec_block_path(dir: Seq<char>, bhh: BlockHeaderHash) -> Seq<char> {
    spec_join(spec_block_dir(dir, bhh), hex_of(bhh.0@))
}

/// The name of the file in which a block is being written.
pub open spec fn tmp_name(bhh: BlockHeaderHash) -> Seq<char> {
    hex_of(bhh.0@) + seq!['.', 't', 'm', 'p']
}

/// The path of the file in which a block is being written.
pub open spec fn spec_block_path_tmp(dir: Seq<char>, bhh: BlockHeaderHash) -> Seq<char> {
    spec_join(spec_block_dir(dir, bhh), tmp_name(bhh))
}

/// The path of `name` in directory `dir`, where `name` is not itself a path.
fn join(dir: &String, name: &str) -> (path: String)
    ensures
        path@ == spec_join(dir@, name@),
{
    let mut path = dir.clone();
    let len: usize = dir.as_str().unicode_len();
    if len > 0 && dir.as_str().get_char(len - 1) != '/' {
        proof {
            reveal_strlit("/");
        }
        path.append("/");
        assert(path@ =~= dir@.push('/'));
    }
    path.append(name);
    path
}

impl TrieFileStorage {
    /// The directory that the file of a block is in. The last two bytes of the
    /// hash form its name.
    pub fn block_dir(dir_path: &String, bhh: &BlockHeaderHash) -> (path: String)
        ensures
            path@ == spec_block_dir(dir_path@, *bhh),
    {
        let outer = join(dir_path, crate::hash::byte_to_hex(bhh.0[31]).as_str());
        join(&outer, crate::hash::byte_to_hex(bhh.0[30]).as_str())
    }

    /// The path of the file of a block.
    pub fn block_path(dir_path: &String, bhh: &BlockHeaderHash) -> (path: String)
        ensures
            path@ == spec_block_path(dir_path@, *bhh),
    {
        let dir = TrieFileStorage::block_dir(dir_path, bhh);
        join(&dir, bhh.to_hex().as_str())
    }

    /// The path of the file in which a block is being written.
    pub fn block_path_tmp(dir_path: &String, bhh: &BlockHeaderHash) -> (path: String)
        ensures
            path@ == spec_block_path_tmp(dir_path@, *bhh),
    {
        let dir = TrieFileStorage::block_dir(dir_path, bhh);
        let mut name = bhh.to_hex();
        proof {
            reveal_strlit(".tmp");
        }
        name.append(".tmp");
        assert(name@ =~= tmp_name(*bhh));
        join(&dir, name.as_str())
    }
}

/// How long the directory of a block's file is does not depend on the block.
pub(crate) proof fn lemma_block_dir_len(dir: Seq<char>, a: BlockHeaderHash, b: BlockHeaderHash)
    ensures
        spec_block_dir(dir, a).len() == spec_block_dir(dir, b).len(),
        spec_block_dir(dir, a).len() > 0,
        spec_block_dir(dir, a).last() != '/',
{
    assert(hex_of(seq![a.0@[30]]).last() != '/');
    assert(hex_of(seq![a.0@[31]]).last() != '/');
    assert(hex_of(seq![b.0@[31]]).last() != '/');
}

/// The texts of two hashes are the same only if the hashes are.
proof fn lemma_hex_injective(a: BlockHeaderHash, b: BlockHeaderHash)
    requires
        hex_of(a.0@) == hex_of(b.0@),
    ensures
        a == b,
{
    law_hex_round_trip(a);
    law_hex_round_trip(b);
    lemma_same_bytes(a, b);
}

/// Two blocks have the same file, or are written in the same file, only if
/// they are the same block; and no block has as its file one in which a block
/// is being written.
pub proof fn law_block_files_are_distinct(dir: Seq<char>, a: BlockHeaderHash, b: BlockHeaderHash)
    ensures
        spec_block_path(dir, a) == spec_block_path(dir, b) <==> a == b,
        spec_block_path_tmp(dir, a) == spec_block_path_tmp(dir, b) <==> a == b,
        spec_block_path(dir, a) != spec_block_path_tmp(dir, b),
{
    lemma_block_dir_len(dir, a, b);
    lemma_block_dir_len(dir, b, a);
    let skipped = spec_block_dir(dir, a).len() + 1;
    assert(spec_block_path(dir, a).skip(skipped as int) =~= hex_of(a.0@));
    assert(spec_block_path(dir, b).skip(skipped as int) =~= hex_of(b.0@));
    assert(spec_block_path_tmp(dir, a).skip(skipped as int).take(64) =~= hex_of(a.0@));
    assert(spec_block_path_tmp(dir, b).skip(skipped as int).take(64) =~= hex_of(b.0@));
    if spec_block_path(dir, a) == spec_block_path(dir, b) || spec_block_path_tmp(dir, a)
        == spec_block_path_tmp(dir, b) {
        lemma_hex_injective(a, b);
    }
    assert(spec_block_path(dir, a).len() == skipped + 64);
    assert(spec_block_path_tmp(dir, b).len() == skipped + 68);
}

/// The name of a block's file is the hexadecimal form of the block's hash, and
/// is read back as that hash; the name of a file in which a block is being
/// written is not the hexadecimal form of any hash.
pub proof fn law_block_name_is_read_back(bhh: BlockHeaderHash)
    ensures
        is_hash_text(hex_of(bhh.0@)),
        bytes_of_hex(hex_of(bhh.0@)) == bhh.0@,
        !is_hash_text(tmp_name(bhh)),
{
    law_hex_round_trip(bhh);
}

/// What the path of a block's file is made of: the directory, with a slash behind
/// it unless it is empty or has one, two digits and a slash, two digits and a
/// slash, and the 64 digits of the hash. The first two digits are the last two of
/// the hash, and the next two are those before them. The path of the file in
/// which the block is being written is the same with `.tmp` behind it.
pub proof fn law_block_path_parts(dir: Seq<char>, bhh: BlockHeaderHash)
    ensures
        ({
            let path = spec_block_path(dir, bhh);
            let start: int = if dir.len() == 0 || dir[dir.len() - 1] == '/' {
                dir.len() as int
            } else {
                dir.len() as int + 1
            };
            let hex = path.skip(start + 6);
            &&& path.len() == start + 70
            &&& path.take(dir.len() as int) == dir
            &&& start > dir.len() ==> path[dir.len() as int] == '/'
            &&& path[start] == hex[62] && path[start + 1] == hex[63] && path[start + 2] == '/'
            &&& path[start + 3] == hex[60] && path[start + 4] == hex[61] && path[start + 5] == '/'
            &&& hex == hex_of(bhh.0@)
            &&& spec_block_path_tmp(dir, bhh) == path + seq!['.', 't', 'm', 'p']
            &&& spec_block_dir(dir, bhh) == path.take(path.len() - 65)
        }),
{
    let path = spec_block_path(dir, bhh);
    let start: int = if dir.len() == 0 || dir[dir.len() - 1] == '/' {
        dir.len() as int
    } else {
        dir.len() as int + 1
    };
    let outer = spec_join(dir, hex_of(seq![bhh.0@[31]]));
    let inner = spec_block_dir(dir, bhh);
    assert(hex_of(seq![bhh.0@[31]]).len() == 2);
    assert(hex_of(seq![bhh.0@[30]]).len() == 2);
    lemma_block_dir_len(dir, bhh, bhh);
    assert(hex_of(seq![bhh.0@[31]]).last() != '/');
    assert(outer.len() == start + 2);
    assert(inner.len() == start + 5);
    assert(path.skip(start + 6) =~= hex_of(bhh.0@));
    assert(hex_of(bhh.0@)[62] == hex_of(seq![bhh.0@[31]])[0]);
    assert(hex_of(bhh.0@)[63] == hex_of(seq![bhh.0@[31]])[1]);
    assert(hex_of(bhh.0@)[60] == hex_of(seq![bhh.0@[30]])[0]);
    assert(hex_of(bhh.0@)[61] == hex_of(seq![bhh.0@[30]])[1]);
    assert(path.take(dir.len() as int) =~= dir);
    assert(inner =~= path.take(path.len() - 65));
    assert(spec_block_path_tmp(dir, bhh) =~= path + seq!['.', 't', 'm', 'p']);
}

} // verus!
