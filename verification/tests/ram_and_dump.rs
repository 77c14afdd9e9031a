use trie_storage::dump::DumpPlan;
use trie_storage::error::Error;
use trie_storage::hash::{BlockHeaderHash, TrieHash};
use trie_storage::node::{
    clear_backptr, get_node_byte_len, is_backptr, set_backptr, TrieBranch, TrieLeaf, TrieNodeID,
    TrieNodeType, TriePtr,
};
use trie_storage::ram::TrieRAM;
use trie_storage::stats::AccessStats;

fn block(n: u8) -> BlockHeaderHash {
    BlockHeaderHash([n; 32])
}

fn hash(n: u8) -> TrieHash {
    TrieHash([n; 32])
}

fn leaf(n: u8, byte_len: usize) -> TrieNodeType {
    TrieNodeType::Leaf(TrieLeaf { body: vec![n], byte_len })
}

fn branch(ptrs: Vec<TriePtr>, byte_len: usize) -> TrieBranch {
    TrieBranch { ptrs, body: vec![7, 8], byte_len }
}

fn empty_slot() -> TriePtr {
    TriePtr::new(TrieNodeID::Empty, 0, 0)
}

fn back_slot() -> TriePtr {
    TriePtr { id: set_backptr(TrieNodeID::Node16), chr: 3, ptr: 900, back_block: 2 }
}

/// A root with an empty slot, a child at place 2, a back pointer, and a child
/// at place 1; the child at place 2 has a leaf at place 3.
fn small_trie() -> TrieRAM {
    let mut trie = TrieRAM::new(&block(1), 4);
    let root = TrieNodeType::Node256(branch(
        vec![
            empty_slot(),
            TriePtr::new(TrieNodeID::Node4, b'x', 2),
            back_slot(),
            TriePtr::new(TrieNodeID::Leaf, b'y', 1),
        ],
        100,
    ));
    let inner = TrieNodeType::Node4(branch(vec![TriePtr::new(TrieNodeID::Leaf, b'z', 3)], 50));
    assert_eq!(trie.write_nodetype(0, &root, hash(10)), Ok(()));
    assert_eq!(trie.write_nodetype(1, &leaf(1, 20), hash(11)), Ok(()));
    assert_eq!(trie.write_nodetype(2, &inner, hash(12)), Ok(()));
    assert_eq!(trie.write_nodetype(3, &leaf(3, 30), hash(13)), Ok(()));
    trie
}

fn root_ptr() -> TriePtr {
    TriePtr::new(TrieNodeID::Node256, 0, 0)
}

#[test]
fn back_pointer_mark_is_the_top_bit() {
    assert!(!is_backptr(TrieNodeID::Node256));
    assert_eq!(set_backptr(TrieNodeID::Node256), 0x85);
    assert!(is_backptr(0x85));
    assert_eq!(clear_backptr(0x85), TrieNodeID::Node256);
    assert_eq!(set_backptr(0x85), 0x85);
    assert_eq!(clear_backptr(TrieNodeID::Leaf), TrieNodeID::Leaf);
    assert!(!is_backptr(0x7f));
    assert!(is_backptr(0x80));
}

#[test]
fn local_pointers_are_neither_empty_nor_back_pointers() {
    assert!(!empty_slot().local());
    assert!(!back_slot().local());
    assert!(root_ptr().local());
}

#[test]
fn nodes_know_their_kind() {
    let kinds = vec![
        (TrieNodeType::Node4(branch(vec![], 1)), TrieNodeID::Node4),
        (TrieNodeType::Node16(branch(vec![], 2)), TrieNodeID::Node16),
        (TrieNodeType::Node48(branch(vec![], 3)), TrieNodeID::Node48),
        (TrieNodeType::Node256(branch(vec![], 4)), TrieNodeID::Node256),
        (leaf(0, 5), TrieNodeID::Leaf),
    ];
    let mut len = 0;
    for (node, id) in kinds {
        len += 1;
        assert_eq!(node.id(), id);
        assert_eq!(node.is_leaf(), id == TrieNodeID::Leaf);
        assert_eq!(get_node_byte_len(&node), len);
        assert_eq!(node.clone(), node);
    }
}

#[test]
fn redirect_changes_one_place() {
    let mut node = TrieNodeType::Node48(branch(vec![back_slot(), root_ptr()], 9));
    node.redirect(0, 77);
    assert_eq!(node.ptrs()[0], TriePtr { ptr: 77, ..back_slot() });
    assert_eq!(node.ptrs()[1], root_ptr());
    assert_eq!(node.ptrs().len(), 2);
}

#[test]
fn new_trie_is_empty() {
    let mut trie = TrieRAM::new(&block(9), 0);
    assert_eq!(trie.block(), block(9));
    assert_eq!(trie.len(), 0);
    assert_eq!(trie.size_hint(), 0);
    assert_eq!(trie.last_ptr(), Ok(0));
    assert_eq!(trie.stats(), (0, 0));
    assert_eq!(trie.read_nodetype(&root_ptr()), Err(Error::NotFoundError));
}

#[test]
fn a_read_gives_back_the_last_write() {
    let mut trie = small_trie();
    assert_eq!(trie.read_nodetype(&TriePtr::new(TrieNodeID::Leaf, 0, 1)), Ok((leaf(1, 20), hash(11))));
    assert_eq!(trie.write_nodetype(1, &leaf(5, 21), hash(15)), Ok(()));
    assert_eq!(trie.read_nodetype(&TriePtr::new(TrieNodeID::Leaf, 0, 1)), Ok((leaf(5, 21), hash(15))));
    assert_eq!(trie.read_nodetype(&TriePtr::new(TrieNodeID::Leaf, 0, 3)), Ok((leaf(3, 30), hash(13))));
    assert_eq!(trie.last_ptr(), Ok(4));
    // only nodes that are added count towards the size
    assert_eq!(trie.size_hint(), 200);
}

#[test]
fn a_write_past_the_end_is_refused_and_counted() {
    let mut trie = small_trie();
    trie.stats();
    assert_eq!(trie.write_nodetype(5, &leaf(5, 21), hash(15)), Err(Error::NotFoundError));
    assert_eq!(trie.last_ptr(), Ok(4));
    assert_eq!(trie.size_hint(), 200);
    assert_eq!(trie.stats(), (0, 1));
}

#[test]
fn a_read_past_the_end_fails_and_is_counted() {
    let mut trie = small_trie();
    trie.stats();
    assert_eq!(trie.read_nodetype(&TriePtr::new(TrieNodeID::Leaf, 0, 4)), Err(Error::NotFoundError));
    assert_eq!(trie.stats(), (1, 0));
}

#[test]
fn hash_bytes_are_appended() {
    let mut trie = small_trie();
    let mut buf = vec![1, 2];
    assert_eq!(trie.read_node_hash_bytes(&TriePtr::new(TrieNodeID::Leaf, 0, 3), &mut buf), Ok(()));
    assert_eq!(buf.len(), 34);
    assert_eq!(buf[..2], [1, 2]);
    assert_eq!(buf[2..], [13u8; 32]);
    assert_eq!(
        trie.read_node_hash_bytes(&TriePtr::new(TrieNodeID::Leaf, 0, 4), &mut buf),
        Err(Error::NotFoundError),
    );
    assert_eq!(buf.len(), 34);
}

#[test]
fn counts_are_handed_out_once() {
    let mut trie = small_trie();
    trie.read_nodetype(&TriePtr::new(set_backptr(TrieNodeID::Leaf), 0, 1)).unwrap();
    trie.read_nodetype(&TriePtr::new(TrieNodeID::Leaf, 0, 1)).unwrap();
    trie.read_nodetype(&TriePtr::new(TrieNodeID::Node4, 0, 2)).unwrap();
    trie.read_nodetype(&root_ptr()).unwrap();
    assert_eq!(trie.stats(), (4, 4));
    assert_eq!(trie.node_stats(), (2, 1, 2));
    assert_eq!(trie.leaf_stats(), (1, 2));
    assert_eq!(trie.stats(), (0, 0));
    assert_eq!(trie.node_stats(), (0, 0, 0));
    assert_eq!(trie.leaf_stats(), (0, 0));
}

#[test]
fn counts_by_kind_add_up() {
    let mut stats = AccessStats::new();
    for id in 0..=255u8 {
        assert!(stats.has_room_for_read(id));
        stats.count_read(id);
    }
    stats.count_write(true);
    stats.count_write(false);
    stats.count_write(false);
    assert_eq!(stats.read_count, 256);
    assert_eq!(stats.read_backptr_count, 128);
    assert_eq!(stats.read_leaf_count, 1);
    assert_eq!(stats.read_node_count, 127);
    assert_eq!(stats.write_count, 3);
    assert_eq!(stats.write_leaf_count, 1);
    assert_eq!(stats.write_node_count, 2);
}

#[test]
fn full_counters_have_no_room() {
    let full = AccessStats { read_leaf_count: u64::MAX, write_node_count: u64::MAX, ..AccessStats::new() };
    assert!(!full.has_room_for_read(TrieNodeID::Leaf));
    assert!(full.has_room_for_read(TrieNodeID::Node4));
    assert!(!full.has_room_for_write(false));
    assert!(full.has_room_for_write(true));
    assert!(!full.has_room_for_reads(1));
    assert!(full.has_room_for_reads(0));
    assert!(AccessStats::new().has_room_for_reads(u64::MAX));
}

#[test]
fn format_takes_all_nodes_out() {
    let mut trie = small_trie();
    assert_eq!(trie.format(), Ok(()));
    assert_eq!(trie.len(), 0);
    assert_eq!(trie.last_ptr(), Ok(0));
    assert_eq!(trie.read_nodetype(&root_ptr()), Err(Error::NotFoundError));
    // the size is that of all nodes that were ever added
    assert_eq!(trie.size_hint(), 200);
}

#[test]
fn readiness_depends_on_size() {
    let mut trie = TrieRAM::new(&block(1), 0);
    assert!(trie.can_read(&root_ptr()));
    assert!(trie.can_write(0, &leaf(1, usize::MAX)));
    trie.write_nodetype(0, &leaf(1, usize::MAX), hash(1)).unwrap();
    assert!(!trie.can_write(1, &leaf(2, 1)));
    assert!(trie.can_write(0, &leaf(2, 1)));
}

fn at(plan: &DumpPlan) -> Vec<u64> {
    plan.entries.iter().map(|e| e.at).collect()
}

#[test]
fn dump_lays_the_nodes_out_breadth_first() {
    let mut trie = small_trie();
    trie.stats();
    let plan = trie.dump(&block(1), &block(2)).unwrap();
    assert_eq!(plan.parent, block(2));
    // root, then the child in the earlier slot, then the other, then the grandchild
    assert_eq!(at(&plan), vec![32, 132, 182, 202]);
    assert_eq!(plan.end, 232);
    let hashes: Vec<TrieHash> = plan.entries.iter().map(|e| e.hash).collect();
    assert_eq!(hashes, vec![hash(10), hash(12), hash(11), hash(13)]);
    assert_eq!(
        plan.entries[0].node,
        TrieNodeType::Node256(branch(
            vec![
                empty_slot(),
                TriePtr::new(TrieNodeID::Node4, b'x', 132),
                back_slot(),
                TriePtr::new(TrieNodeID::Leaf, b'y', 182),
            ],
            100,
        )),
    );
    assert_eq!(
        plan.entries[1].node,
        TrieNodeType::Node4(branch(vec![TriePtr::new(TrieNodeID::Leaf, b'z', 202)], 50)),
    );
    assert_eq!(plan.entries[2].node, leaf(1, 20));
    assert_eq!(plan.entries[3].node, leaf(3, 30));
    // every node was read once
    assert_eq!(trie.stats(), (4, 0));
}

#[test]
fn dump_leaves_the_trie_as_it_is() {
    let mut trie = small_trie();
    let first = trie.dump(&block(1), &block(2)).unwrap();
    let second = trie.dump(&block(1), &block(2)).unwrap();
    assert_eq!(first, second);
    assert_eq!(trie.len(), 4);
    let (root, _) = trie.read_nodetype(&root_ptr()).unwrap();
    assert_eq!(root.ptrs()[1].ptr, 2);
}

#[test]
fn nodes_that_nothing_leads_to_are_left_out() {
    let mut trie = small_trie();
    trie.write_nodetype(4, &leaf(9, 40), hash(19)).unwrap();
    let plan = trie.dump(&block(1), &block(2)).unwrap();
    assert_eq!(plan.entries.len(), 4);
    assert_eq!(plan.end, 232);
}

#[test]
fn a_shared_node_is_written_for_each_pointer() {
    let mut trie = TrieRAM::new(&block(1), 0);
    let to_leaf = TriePtr::new(TrieNodeID::Leaf, 0, 1);
    trie.write_nodetype(0, &TrieNodeType::Node4(branch(vec![to_leaf, to_leaf], 10)), hash(0)).unwrap();
    trie.write_nodetype(1, &leaf(1, 5), hash(1)).unwrap();
    let plan = trie.dump(&block(1), &block(2)).unwrap();
    assert_eq!(at(&plan), vec![32, 42, 47]);
    assert_eq!(plan.end, 52);
    assert_eq!(plan.entries[0].node.ptrs()[0].ptr, 42);
    assert_eq!(plan.entries[0].node.ptrs()[1].ptr, 47);
}

#[test]
fn a_root_alone_has_a_file() {
    let mut trie = TrieRAM::new(&block(1), 0);
    trie.write_nodetype(0, &TrieNodeType::Node256(branch(vec![empty_slot(), back_slot()], 64)), hash(5)).unwrap();
    let plan = trie.dump(&block(1), &block(2)).unwrap();
    assert_eq!(at(&plan), vec![32]);
    assert_eq!(plan.end, 96);
    assert_eq!(plan.entries[0].node.ptrs()[1], back_slot());
}

#[test]
fn dump_of_another_block_fails() {
    let mut trie = small_trie();
    trie.stats();
    assert_eq!(trie.dump(&block(3), &block(2)), Err(Error::NotFoundError));
    assert_eq!(trie.stats(), (0, 0));
}

#[test]
fn dump_of_an_empty_trie_fails() {
    let mut trie = TrieRAM::new(&block(1), 0);
    assert_eq!(trie.dump(&block(1), &block(2)), Err(Error::NotFoundError));
    assert_eq!(trie.stats(), (1, 0));
}

#[test]
fn dump_stops_at_a_pointer_that_leads_nowhere() {
    let mut trie = TrieRAM::new(&block(1), 0);
    let root = TrieNodeType::Node4(branch(
        vec![
            TriePtr::new(TrieNodeID::Leaf, 0, 1),
            TriePtr::new(TrieNodeID::Leaf, 0, 7),
            TriePtr::new(TrieNodeID::Leaf, 0, 1),
        ],
        10,
    ));
    trie.write_nodetype(0, &root, hash(0)).unwrap();
    trie.write_nodetype(1, &leaf(1, 5), hash(1)).unwrap();
    trie.stats();
    assert!(trie.fits_within(100));
    assert_eq!(trie.dump(&block(1), &block(2)), Err(Error::NotFoundError));
    // the root, the leaf, and the pointer that leads nowhere
    assert_eq!(trie.stats(), (3, 0));
}

#[test]
fn walk_is_found_to_end_or_not() {
    let trie = small_trie();
    assert!(trie.fits_within(4));
    assert!(trie.fits_within(usize::MAX));
    assert!(!trie.fits_within(3));
    let mut circle = TrieRAM::new(&block(1), 0);
    circle.write_nodetype(0, &TrieNodeType::Node4(branch(vec![root_ptr()], 10)), hash(0)).unwrap();
    assert!(!circle.fits_within(1000));
    let mut large = TrieRAM::new(&block(1), 0);
    large.write_nodetype(0, &leaf(0, usize::MAX - 31), hash(0)).unwrap();
    assert!(!large.fits_within(1000));
    let mut fitting = TrieRAM::new(&block(1), 0);
    fitting.write_nodetype(0, &leaf(0, usize::MAX - 32), hash(0)).unwrap();
    assert!(fitting.fits_within(1000));
}

#[test]
fn offsets_beyond_a_pointer_wrap_in_the_pointer_and_the_seek_alike() {
    let mut trie = TrieRAM::new(&block(1), 0);
    let root = TrieNodeType::Node4(branch(vec![TriePtr::new(TrieNodeID::Leaf, 0, 1)], 0x1_0000_0000));
    trie.write_nodetype(0, &root, hash(0)).unwrap();
    trie.write_nodetype(1, &leaf(1, 5), hash(1)).unwrap();
    let plan = trie.dump(&block(1), &block(2)).unwrap();
    assert_eq!(at(&plan), vec![32, 32]);
    assert_eq!(plan.entries[0].node.ptrs()[0].ptr, 32);
    assert_eq!(plan.end, 0x1_0000_0025);
}
