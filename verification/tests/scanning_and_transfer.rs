use trie_storage::error::{Error, IoError};
use trie_storage::hash::{BlockHeaderHash, TrieHash};
use trie_storage::index::HashIndex;
use trie_storage::node::{TrieLeaf, TrieNodeType};
use trie_storage::roots::{RootAction, RootEvent};
use trie_storage::scan::FoundFile;
use trie_storage::setup::{SetupAction, SetupEvent};
use trie_storage::blocks::ExtendEvent;
use trie_storage::storage::TrieFileStorage;
use trie_storage::transfer::{read_all, transfer_start, write_all, TransferAction};

const DENIED: IoError = IoError { not_found: false, code: Some(13) };

fn block(n: u8) -> BlockHeaderHash {
    BlockHeaderHash([n; 32])
}

fn file(name: &str) -> FoundFile {
    FoundFile { is_file: true, name: Some(name.to_string()) }
}

fn storage() -> TrieFileStorage {
    match TrieFileStorage::new(&"idx".to_string(), SetupEvent::ForksRead(Ok(()))) {
        SetupAction::Ready(storage) => storage,
        _ => panic!("not ready"),
    }
}

#[test]
fn files_of_blocks_are_recognised() {
    let hex = block(0xab).to_hex();
    assert_eq!(TrieFileStorage::block_of_file(&file(&hex)), Some(block(0xab)));
    assert_eq!(TrieFileStorage::block_of_file(&file(&hex.to_uppercase())), Some(block(0xab)));
    assert_eq!(TrieFileStorage::block_of_file(&file(&format!("{}.tmp", hex))), None);
    assert_eq!(TrieFileStorage::block_of_file(&file("readme")), None);
    assert_eq!(TrieFileStorage::block_of_file(&FoundFile { is_file: false, name: Some(hex) }), None);
    assert_eq!(TrieFileStorage::block_of_file(&FoundFile { is_file: true, name: None }), None);
}

#[test]
fn partial_writes_are_recognised() {
    let hex = block(0xab).to_hex();
    let partial = |name: &str| TrieFileStorage::is_partial_write(&file(name));
    assert!(partial(&format!("{}.tmp", hex)));
    assert!(!partial(&hex));
    assert!(!partial(&format!("{}.tmp", hex.to_uppercase())));
    assert!(!partial(&format!("{}.tmp", &hex[1..])));
    assert!(!partial(&format!("0{}.tmp", hex)));
    assert!(!partial(&format!("{}.tmpx", hex)));
    assert!(!partial(&format!("{}.tm", hex)));
    assert!(!partial(&format!("{}.TMP", hex)));
    assert!(!partial(&format!("g{}.tmp", &hex[1..])));
    assert!(!partial(""));
    // the dot is a dot, and no other character
    assert!(!partial(&format!("{}xtmp", hex)));
    assert!(!partial(&format!("{}xtmp", "0".repeat(64))));
    assert!(!partial(&format!("{}-tmp", hex)));
    assert!(!partial(&format!("{}\u{e9}tmp", hex)));
    assert!(!partial(&format!("{}\ntmp", hex)));
    assert!(!partial(&format!("{}tmp", hex)));
    // the pattern takes in the whole name
    assert!(!partial(&format!("{}.tmp\n", hex)));
    assert!(!partial(&format!("\n{}.tmp", hex)));
    // digits of other scripts are no digits here
    assert!(!partial(&format!("\u{0661}{}.tmp", &hex[1..])));
    assert!(!TrieFileStorage::is_partial_write(&FoundFile {
        is_file: false,
        name: Some(format!("{}.tmp", hex)),
    }));
    assert!(!TrieFileStorage::is_partial_write(&FoundFile { is_file: true, name: None }));
}

#[test]
fn partial_writes_are_listed_in_order() {
    let tmp = |n: u8| file(&format!("{}.tmp", block(n).to_hex()));
    let files = vec![tmp(1), file(&block(2).to_hex()), file("x"), tmp(3), tmp(1)];
    assert_eq!(TrieFileStorage::scan_tmp_blocks(&files), vec![0, 3, 4]);
    assert_eq!(TrieFileStorage::scan_tmp_blocks(&vec![]), Vec::<usize>::new());
    let other = vec![file(&format!("{}xtmp", "0".repeat(64)))];
    assert_eq!(TrieFileStorage::scan_tmp_blocks(&other), Vec::<usize>::new());
    // once they are removed, none is left
    let left = vec![file(&block(2).to_hex()), file("x")];
    assert_eq!(TrieFileStorage::scan_tmp_blocks(&left), Vec::<usize>::new());
}

#[test]
fn children_are_grouped_by_parent() {
    let sentinel = TrieFileStorage::block_sentinel();
    let blocks = vec![
        (block(3), block(1)),
        (block(1), sentinel),
        (block(4), block(1)),
        (block(5), block(3)),
        (block(2), block(1)),
    ];
    let table = TrieFileStorage::scan_blocks(&blocks);
    assert_eq!(table.get(&block(1).0), Some(&vec![block(3), block(4), block(2)]));
    assert_eq!(table.get(&sentinel.0), Some(&vec![block(1)]));
    assert_eq!(table.get(&block(3).0), Some(&vec![block(5)]));
    assert_eq!(table.get(&block(2).0), None);
    assert_eq!(table.get(&block(5).0), None);
}

#[test]
fn nothing_found_means_no_parents() {
    let table = TrieFileStorage::scan_blocks(&vec![]);
    assert_eq!(table.get(&block(1).0), None);
}

#[test]
fn index_keeps_the_last_value_of_each_key() {
    let mut index: HashIndex<u32> = HashIndex::new();
    assert_eq!(index.get(&[0; 32]), None);
    for n in 0..200u8 {
        index.insert([n; 32], n as u32);
    }
    index.insert([7; 32], 1000);
    for n in 0..200u8 {
        let expected = if n == 7 { 1000 } else { n as u32 };
        assert_eq!(index.get(&[n; 32]), Some(&expected));
    }
    assert_eq!(index.get(&[200; 32]), None);
    let mut near = [7u8; 32];
    near[31] = 8;
    assert_eq!(index.get(&near), None);
}

#[test]
fn index_knows_its_keys() {
    let mut index: HashIndex<u32> = HashIndex::new();
    assert_eq!(index.len(), 0);
    assert!(index.keys().is_empty());
    for n in [3u8, 1, 2, 1, 3] {
        index.insert([n; 32], n as u32);
    }
    assert_eq!(index.len(), 3);
    let mut keys = index.keys().clone();
    keys.sort();
    assert_eq!(keys, vec![[1u8; 32], [2; 32], [3; 32]]);
}

#[test]
fn index_of_lists_appends() {
    let mut index: HashIndex<Vec<u8>> = HashIndex::new();
    index.append([1; 32], 10);
    index.append([2; 32], 20);
    index.append([1; 32], 11);
    assert_eq!(index.get(&[1; 32]), Some(&vec![10, 11]));
    assert_eq!(index.get(&[2; 32]), Some(&vec![20]));
}

#[test]
fn roots_lead_to_blocks() {
    let roots = vec![
        (TrieHash([1; 32]), block(11)),
        (TrieHash([2; 32]), block(12)),
        (TrieHash([1; 32]), block(13)),
    ];
    let mut s = storage();
    let table = s.read_root_to_block_table(&roots).unwrap_or_else(|_| panic!("no table"));
    assert_eq!(table.get(&[1; 32]), Some(&block(13)));
    assert_eq!(table.get(&[2; 32]), Some(&block(12)));
    assert_eq!(table.get(&[3; 32]), None);
}

#[test]
fn the_root_in_ram_leads_to_its_block() {
    let mut s = storage();
    s.extend_to_block(&block(5), ExtendEvent::ForksExtended(Ok(())));
    let node = TrieNodeType::Leaf(TrieLeaf { body: vec![], byte_len: 1 });
    s.write_node(0, &node, TrieHash([9; 32])).unwrap();
    let roots = vec![(TrieHash([9; 32]), block(1)), (TrieHash([8; 32]), block(2))];
    let table = s.read_root_to_block_table(&roots).unwrap_or_else(|_| panic!("no table"));
    assert_eq!(table.get(&[9; 32]), Some(&block(5)));
    assert_eq!(table.get(&[8; 32]), Some(&block(2)));
    assert!(s.has_trie());
}

#[test]
fn a_trie_without_a_root_is_lost_to_the_table_of_roots() {
    let mut s = storage();
    s.extend_to_block(&block(5), ExtendEvent::ForksExtended(Ok(())));
    assert!(matches!(s.read_root_to_block_table(&vec![]), Err(Error::NotFoundError)));
    assert!(!s.has_trie());
}

#[test]
fn roots_are_read_for_blocks_only() {
    let sentinel = TrieFileStorage::block_sentinel();
    let forks = vec![vec![sentinel, block(1), block(2)], vec![], vec![block(3)], vec![sentinel]];
    assert_eq!(TrieFileStorage::blocks_with_roots(&forks), vec![block(1), block(2), block(3)]);
    assert_eq!(TrieFileStorage::blocks_with_roots(&vec![]), vec![]);
}

#[test]
fn a_root_hash_is_read_from_either_file() {
    let s = storage();
    let dir = "idx".to_string();
    let h = TrieHash([4; 32]);
    assert_eq!(
        s.root_hash_step(&block(1), RootEvent::Requested),
        RootAction::ReadFile(TrieFileStorage::block_path(&dir, &block(1))),
    );
    assert_eq!(
        s.root_hash_step(&block(1), RootEvent::ReadFromFile(Ok(h))),
        RootAction::Finish(Ok(h)),
    );
    assert_eq!(
        s.root_hash_step(&block(1), RootEvent::ReadFromFile(Err(Error::NotFoundError))),
        RootAction::ReadTmp(TrieFileStorage::block_path_tmp(&dir, &block(1))),
    );
    assert_eq!(
        s.root_hash_step(&block(1), RootEvent::ReadFromTmp(Ok(h))),
        RootAction::Finish(Ok(h)),
    );
    assert_eq!(
        s.root_hash_step(&block(1), RootEvent::ReadFromTmp(Err(Error::IOError(DENIED)))),
        RootAction::Finish(Err(Error::IOError(DENIED))),
    );
}

#[test]
fn transfers_of_nothing_are_done_at_once() {
    assert_eq!(transfer_start(0), TransferAction::Finish(Ok(0)));
    assert_eq!(transfer_start(5), TransferAction::Move { from: 0 });
}

#[test]
fn reading_goes_on_until_full_or_dry() {
    assert_eq!(read_all(10, 0, Ok(4)), TransferAction::Move { from: 4 });
    assert_eq!(read_all(10, 4, Ok(6)), TransferAction::Finish(Ok(10)));
    assert_eq!(read_all(10, 4, Ok(0)), TransferAction::Finish(Ok(4)));
    assert_eq!(read_all(10, 4, Err(DENIED)), TransferAction::Finish(Err(Error::IOError(DENIED))));
}

#[test]
fn writing_goes_on_until_done() {
    assert_eq!(write_all(10, 0, Ok(4)), TransferAction::Move { from: 4 });
    assert_eq!(write_all(10, 4, Ok(0)), TransferAction::Move { from: 4 });
    assert_eq!(write_all(10, 4, Ok(6)), TransferAction::Finish(Ok(10)));
    assert_eq!(write_all(10, 4, Err(DENIED)), TransferAction::Finish(Err(Error::IOError(DENIED))));
}
