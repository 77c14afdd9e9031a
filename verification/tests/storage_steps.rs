use trie_storage::blocks::{
    ExtendAction, ExtendEvent, ForkStatus, OpenAction, OpenEvent, WalkAction, WalkEvent,
};
use trie_storage::error::{open_error, Error, IoError};
use trie_storage::flush::{FlushAction, FlushEvent, PendingFlush};
use trie_storage::hash::{BlockHeaderHash, TrieHash};
use trie_storage::node::{
    set_backptr, TrieBranch, TrieLeaf, TrieNodeID, TrieNodeType, TriePtr,
};
use trie_storage::scan::FoundFile;
use trie_storage::setup::{FormatAction, FormatEvent, SetupAction, SetupEvent};
use trie_storage::storage::{Served, TrieFileStorage, TrieForkPtr};

const NOT_FOUND: IoError = IoError { not_found: true, code: Some(2) };
const DENIED: IoError = IoError { not_found: false, code: Some(13) };
const SPOT: TrieForkPtr = TrieForkPtr { column: 1, row: 4 };

fn dir() -> String {
    "idx".to_string()
}

fn block(n: u8) -> BlockHeaderHash {
    BlockHeaderHash([n; 32])
}

fn hash(n: u8) -> TrieHash {
    TrieHash([n; 32])
}

fn leaf(n: u8, byte_len: usize) -> TrieNodeType {
    TrieNodeType::Leaf(TrieLeaf { body: vec![n], byte_len })
}

fn root(ptrs: Vec<TriePtr>, byte_len: usize) -> TrieNodeType {
    TrieNodeType::Node256(TrieBranch { ptrs, body: vec![], byte_len })
}

fn root_ptr() -> TriePtr {
    TriePtr::new(TrieNodeID::Node256, 0, 0)
}

fn fresh() -> TrieFileStorage {
    match TrieFileStorage::new(&dir(), SetupEvent::ForksRead(Ok(()))) {
        SetupAction::Ready(storage) => storage,
        _ => panic!("not ready"),
    }
}

fn forks(size: usize, has_current: bool, has_block: bool) -> ExtendEvent {
    ExtendEvent::Requested(ForkStatus { size, has_current, has_block })
}

/// Storage whose current block is `n`, with an empty trie in RAM.
fn extended(n: u8) -> TrieFileStorage {
    let mut storage = fresh();
    assert_eq!(storage.extend_to_block(&block(n), forks(0, false, false)), ExtendAction::Flush);
    assert_eq!(
        storage.extend_to_block(&block(n), ExtendEvent::ForksExtended(Ok(()))),
        ExtendAction::Finish(Ok(())),
    );
    storage
}

fn fail(action: SetupAction) -> Error {
    match action {
        SetupAction::Fail(e) => e,
        _ => panic!("no failure"),
    }
}

#[test]
fn setup_takes_a_directory() {
    assert!(matches!(TrieFileStorage::new(&dir(), SetupEvent::DirChecked(Ok(true))), SetupAction::ScanTmp));
    assert!(matches!(TrieFileStorage::new(&dir(), SetupEvent::DirCreated(Ok(()))), SetupAction::ScanTmp));
    assert!(matches!(
        TrieFileStorage::new(&dir(), SetupEvent::DirChecked(Err(NOT_FOUND))),
        SetupAction::CreateDir
    ));
    match TrieFileStorage::new(&dir(), SetupEvent::TmpScanned(Ok(0))) {
        SetupAction::ReadForks(bhh) => assert_eq!(bhh, TrieFileStorage::block_sentinel()),
        _ => panic!("forks are not read"),
    }
}

#[test]
fn setup_fails_with_what_went_wrong() {
    let new = |event| fail(TrieFileStorage::new(&dir(), event));
    assert_eq!(new(SetupEvent::DirChecked(Ok(false))), Error::NotDirectoryError);
    assert_eq!(new(SetupEvent::DirChecked(Err(DENIED))), Error::IOError(DENIED));
    assert_eq!(new(SetupEvent::DirCreated(Err(NOT_FOUND))), Error::IOError(NOT_FOUND));
    assert_eq!(new(SetupEvent::TmpScanned(Ok(1))), Error::PartialWriteError);
    assert_eq!(new(SetupEvent::TmpScanned(Err(Error::IOError(DENIED)))), Error::IOError(DENIED));
    assert_eq!(new(SetupEvent::ForksRead(Err(Error::NotFoundError))), Error::NotFoundError);
}

#[test]
fn fresh_storage_has_no_block() {
    let mut storage = fresh();
    assert_eq!(storage.dir_path, dir());
    assert_eq!(storage.get_cur_block(), TrieFileStorage::block_sentinel());
    assert!(storage.readwrite());
    assert!(!storage.file_open());
    assert!(!storage.has_trie());
    assert!(!storage.current_in_ram());
    assert_eq!(storage.root_ptr(), 32);
    assert_eq!(storage.stats(), (0, 0));
    assert_eq!(storage.read_nodetype(&root_ptr()), Err(Error::NotFoundError));
    assert_eq!(storage.read_node_hash_bytes(&root_ptr(), &mut vec![]), Err(Error::NotFoundError));
}

#[test]
fn failed_opens_are_told_apart() {
    assert_eq!(open_error(NOT_FOUND), Error::NotFoundError);
    assert_eq!(open_error(DENIED), Error::IOError(DENIED));
}

#[test]
fn root_of_a_file_is_behind_the_parent() {
    assert_eq!(
        TrieFileStorage::file_root_ptr(),
        TriePtr { id: TrieNodeID::Node256, chr: 0, ptr: 32, back_block: 0 },
    );
}

#[test]
fn extending_goes_step_by_step() {
    let mut s = fresh();
    let b = block(5);
    let path = TrieFileStorage::block_path(&dir(), &b);
    let tmp = TrieFileStorage::block_path_tmp(&dir(), &b);
    assert_eq!(s.extend_to_block(&b, forks(1, true, false)), ExtendAction::Flush);
    assert_eq!(s.extend_to_block(&b, ExtendEvent::Flushed(Ok(()))), ExtendAction::CheckPath(path));
    assert_eq!(
        s.extend_to_block(&b, ExtendEvent::PathChecked(Err(NOT_FOUND))),
        ExtendAction::CheckTmpPath(tmp.clone()),
    );
    assert_eq!(
        s.extend_to_block(&b, ExtendEvent::TmpPathChecked(Err(NOT_FOUND))),
        ExtendAction::CreateDir("idx/05/05".to_string()),
    );
    assert_eq!(s.extend_to_block(&b, ExtendEvent::DirCreated(Ok(()))), ExtendAction::OpenTmp(tmp));
    assert_eq!(
        s.extend_to_block(&b, ExtendEvent::TmpOpened(Ok(()))),
        ExtendAction::WriteParent(TrieFileStorage::block_sentinel()),
    );
    assert_eq!(
        s.extend_to_block(&b, ExtendEvent::ParentWritten(Ok(()))),
        ExtendAction::ExtendForks { parent: TrieFileStorage::block_sentinel(), block: b },
    );
    assert_eq!(s.get_cur_block(), TrieFileStorage::block_sentinel());
    assert_eq!(s.extend_to_block(&b, ExtendEvent::ForksExtended(Ok(()))), ExtendAction::Finish(Ok(())));
    assert_eq!(s.get_cur_block(), b);
    assert!(s.current_in_ram());
    assert_eq!(s.root_ptr(), 0);
    assert_eq!(s.last_ptr(), Ok(0));
}

#[test]
fn extending_fails_with_what_went_wrong() {
    let mut s = extended(5);
    let b = block(6);
    let text = format!("Current block {} not in fork table", "05".repeat(32));
    let cases = vec![
        (forks(3, false, false), Error::CorruptionError(text.clone())),
        (forks(3, false, true), Error::CorruptionError(text)),
        (forks(3, true, true), Error::ExistsError),
        (forks(0, false, true), Error::ExistsError),
        (ExtendEvent::Flushed(Err(Error::ReadOnlyError)), Error::ReadOnlyError),
        (ExtendEvent::PathChecked(Ok(())), Error::ExistsError),
        (ExtendEvent::PathChecked(Err(DENIED)), Error::IOError(DENIED)),
        (ExtendEvent::TmpPathChecked(Ok(())), Error::ExistsError),
        (ExtendEvent::TmpPathChecked(Err(DENIED)), Error::IOError(DENIED)),
        (ExtendEvent::DirCreated(Err(NOT_FOUND)), Error::IOError(NOT_FOUND)),
        (ExtendEvent::TmpOpened(Err(NOT_FOUND)), Error::NotFoundError),
        (ExtendEvent::TmpOpened(Err(DENIED)), Error::IOError(DENIED)),
        (ExtendEvent::ParentWritten(Err(Error::IOError(DENIED))), Error::IOError(DENIED)),
        (ExtendEvent::ForksExtended(Err(Error::ExistsError)), Error::ExistsError),
    ];
    for (event, error) in cases {
        assert_eq!(s.extend_to_block(&b, event), ExtendAction::Finish(Err(error)));
        assert_eq!(s.get_cur_block(), block(5));
        assert!(s.current_in_ram());
    }
}

#[test]
fn extending_makes_read_only_storage_writable() {
    let mut s = extended(5);
    assert_eq!(s.open_block(&block(5), false, OpenEvent::Requested(Ok(SPOT))), OpenAction::Finish(Ok(())));
    assert!(!s.readwrite());
    assert_eq!(s.extend_to_block(&block(6), forks(2, true, true)), ExtendAction::Finish(Err(Error::ExistsError)));
    assert!(!s.readwrite());
    assert_eq!(s.extend_to_block(&block(6), forks(2, true, false)), ExtendAction::Flush);
    assert!(s.readwrite());
}

#[test]
fn opening_the_block_in_ram_needs_no_file() {
    let mut s = extended(5);
    assert_eq!(s.open_block(&block(5), true, OpenEvent::Requested(Ok(SPOT))), OpenAction::Finish(Ok(())));
    assert!(s.current_in_ram());
    assert!(!s.file_open());
    assert!(s.readwrite());
}

#[test]
fn opening_another_block_opens_its_file() {
    let mut s = extended(5);
    let path = TrieFileStorage::block_path(&dir(), &block(6));
    // asked for twice, the second time out of the paths that are remembered
    for readwrite in [true, false] {
        assert_eq!(
            s.open_block(&block(6), readwrite, OpenEvent::Requested(Ok(SPOT))),
            OpenAction::OpenFile { path: path.clone(), fork_ptr: SPOT },
        );
        assert_eq!(
            s.open_block(&block(6), readwrite, OpenEvent::FileOpened { fork_ptr: SPOT, outcome: Ok(()) }),
            OpenAction::Finish(Ok(())),
        );
        assert_eq!(s.get_cur_block(), block(6));
        assert!(s.file_open());
        assert!(!s.current_in_ram());
        assert!(s.has_trie());
        assert_eq!(s.readwrite(), readwrite);
        assert_eq!(s.root_ptr(), 32);
    }
    // back to the one in RAM
    assert_eq!(s.open_block(&block(5), true, OpenEvent::Requested(Ok(SPOT))), OpenAction::Finish(Ok(())));
    assert!(!s.file_open());
    assert_eq!(s.root_ptr(), 0);
}

#[test]
fn opening_fails_and_changes_nothing() {
    let mut s = extended(5);
    let cases = vec![
        (OpenEvent::Requested(Err(Error::NotFoundError)), Error::NotFoundError),
        (OpenEvent::FileOpened { fork_ptr: SPOT, outcome: Err(NOT_FOUND) }, Error::NotFoundError),
        (OpenEvent::FileOpened { fork_ptr: SPOT, outcome: Err(DENIED) }, Error::IOError(DENIED)),
    ];
    for (event, error) in cases {
        assert_eq!(s.open_block(&block(6), false, event), OpenAction::Finish(Err(error)));
        assert_eq!(s.get_cur_block(), block(5));
        assert!(s.readwrite());
        assert!(s.current_in_ram());
    }
}

#[test]
fn remembered_paths_are_the_right_ones() {
    let mut s = fresh();
    for n in [1u8, 2, 1, 3, 2, 1] {
        assert_eq!(s.cached_block_path(&block(n)), TrieFileStorage::block_path(&dir(), &block(n)));
    }
}

#[test]
fn walking_back_looks_the_block_up_once() {
    let mut s = extended(5);
    let back = WalkAction::WalkBack { fork_ptr: SPOT, from: block(5), back_block: 3 };
    assert_eq!(s.block_walk(3, WalkEvent::Requested), WalkAction::FindPtr(block(5)));
    assert_eq!(s.block_walk(3, WalkEvent::PtrFound(Ok(SPOT))), back);
    assert_eq!(s.block_walk(3, WalkEvent::Walked(Ok(block(2)))), WalkAction::Finish(Ok(block(2))));
    assert_eq!(s.block_walk(3, WalkEvent::Requested), back);
}

#[test]
fn walking_back_fails_at_the_sentinel() {
    let mut s = extended(5);
    let sentinel = TrieFileStorage::block_sentinel();
    assert_eq!(s.block_walk(9, WalkEvent::Walked(Ok(sentinel))), WalkAction::Finish(Err(Error::NotFoundError)));
    assert_eq!(
        s.block_walk(9, WalkEvent::PtrFound(Err(Error::ReadOnlyError))),
        WalkAction::Finish(Err(Error::ReadOnlyError)),
    );
    assert_eq!(
        s.block_walk(9, WalkEvent::Walked(Err(Error::NotFoundError))),
        WalkAction::Finish(Err(Error::NotFoundError)),
    );
    // the failed lookup was not remembered
    assert_eq!(s.block_walk(9, WalkEvent::Requested), WalkAction::FindPtr(block(5)));
}

#[test]
fn nodes_in_ram_are_read_back() {
    let mut s = extended(5);
    assert!(s.can_write(0, &root(vec![], 40)));
    assert_eq!(s.write_nodetype(0, &root(vec![], 40), hash(1)), Ok(()));
    assert_eq!(s.write_node(1, &leaf(7, 9), hash(2)), Ok(()));
    assert_eq!(s.write_node(3, &leaf(8, 9), hash(3)), Err(Error::NotFoundError));
    assert_eq!(s.last_ptr(), Ok(2));
    // a back-pointer mark makes no difference to what is read
    let marked = TriePtr { id: set_backptr(TrieNodeID::Leaf), chr: 0, ptr: 1, back_block: 3 };
    assert!(s.can_read(&marked));
    assert_eq!(s.read_nodetype(&marked), Ok(Served::InRam((leaf(7, 9), hash(2)))));
    assert_eq!(s.read_nodetype(&root_ptr()), Ok(Served::InRam((root(vec![], 40), hash(1)))));
    assert_eq!(s.read_nodetype(&TriePtr::new(TrieNodeID::Leaf, 0, 2)), Err(Error::NotFoundError));
    let mut buf = vec![];
    assert_eq!(s.read_node_hash_bytes(&marked, &mut buf), Ok(Served::InRam(())));
    assert_eq!(buf, vec![2u8; 32]);
    assert_eq!(
        s.read_node_hash_bytes(&TriePtr::new(TrieNodeID::Leaf, 0, 2), &mut buf),
        Err(Error::NotFoundError),
    );
    assert_eq!(s.stats(), (3, 3));
    assert_eq!(s.node_stats(), (1, 1, 1));
    assert_eq!(s.leaf_stats(), (1, 2));
    assert_eq!(s.stats(), (0, 0));
}

#[test]
fn nodes_on_disk_are_pointed_to() {
    let mut s = extended(5);
    s.open_block(&block(6), false, OpenEvent::FileOpened { fork_ptr: SPOT, outcome: Ok(()) });
    let marked = TriePtr { id: set_backptr(TrieNodeID::Leaf), chr: 4, ptr: 90, back_block: 3 };
    assert_eq!(
        s.read_nodetype(&marked),
        Ok(Served::OnDisk(TriePtr { id: TrieNodeID::Leaf, chr: 4, ptr: 90, back_block: 0 })),
    );
    let mut buf = vec![1];
    assert_eq!(s.read_node_hash_bytes(&marked, &mut buf), Ok(Served::OnDisk(marked)));
    assert_eq!(buf, vec![1]);
    assert!(!s.can_write(0, &leaf(1, 1)));
}

#[test]
fn read_only_storage_is_not_written() {
    let mut s = extended(5);
    s.write_node(0, &leaf(7, 9), hash(2)).unwrap();
    s.open_block(&block(5), false, OpenEvent::Requested(Ok(SPOT)));
    assert_eq!(s.write_nodetype(1, &leaf(7, 9), hash(2)), Err(Error::ReadOnlyError));
    assert_eq!(s.write_node(1, &leaf(7, 9), hash(2)), Err(Error::ReadOnlyError));
    assert_eq!(s.last_ptr(), Err(Error::ReadOnlyError));
    assert_eq!(s.format(FormatEvent::Requested), FormatAction::Fail(Error::ReadOnlyError));
    assert_eq!(s.stats(), (0, 1));
}

#[test]
fn formatting_empties_the_storage() {
    let mut s = extended(5);
    s.write_node(0, &leaf(7, 9), hash(2)).unwrap();
    assert_eq!(s.format(FormatEvent::Requested), FormatAction::RemoveDir);
    assert_eq!(s.format(FormatEvent::DirRemoved(Err(DENIED))), FormatAction::Fail(Error::IOError(DENIED)));
    assert_eq!(s.format(FormatEvent::DirRemoved(Ok(()))), FormatAction::CreateDir);
    assert_eq!(s.format(FormatEvent::DirCreated(Err(DENIED))), FormatAction::Fail(Error::IOError(DENIED)));
    assert!(s.has_trie());
    assert_eq!(s.format(FormatEvent::DirCreated(Ok(()))), FormatAction::ClearForks);
    assert!(!s.has_trie());
    assert_eq!(s.get_cur_block(), TrieFileStorage::block_sentinel());
    assert_eq!(s.block_walk(1, WalkEvent::Requested), WalkAction::FindPtr(TrieFileStorage::block_sentinel()));
    // the counts go on
    assert_eq!(s.stats(), (0, 1));
}

#[test]
fn flushing_saves_the_trie_in_ram() {
    let mut s = extended(5);
    let mut pending: Option<PendingFlush> = None;
    s.write_node(0, &root(vec![TriePtr::new(TrieNodeID::Leaf, 1, 1)], 40), hash(1)).unwrap();
    s.write_node(1, &leaf(7, 9), hash(2)).unwrap();
    let path = TrieFileStorage::block_path(&dir(), &block(5));
    let tmp = TrieFileStorage::block_path_tmp(&dir(), &block(5));
    assert_eq!(s.flush(&mut pending, FlushEvent::Requested), FlushAction::FindParent(block(5)));
    assert!(!s.has_trie());
    assert_eq!(
        s.flush(&mut pending, FlushEvent::ParentFound { parent: Ok(block(4)), known: true }),
        FlushAction::OpenTmp(tmp.clone()),
    );
    assert!(matches!(&pending, Some(flush) if flush.fits_within(2) && !flush.fits_within(1)));
    match s.flush(&mut pending, FlushEvent::TmpOpened) {
        FlushAction::Write(plan) => {
            assert_eq!(plan.parent, block(4));
            assert_eq!(plan.entries.len(), 2);
            assert_eq!(plan.entries[0].at, 32);
            assert_eq!(plan.entries[0].hash, hash(1));
            assert_eq!(plan.entries[0].node.ptrs()[0].ptr, 72);
            assert_eq!(plan.entries[1].at, 72);
            assert_eq!(plan.entries[1].node, leaf(7, 9));
            assert_eq!(plan.end, 81);
        },
        _ => panic!("nothing to write"),
    }
    assert_eq!(
        s.flush(&mut pending, FlushEvent::Written(Ok(()))),
        FlushAction::Place { from: tmp, to: path.clone() },
    );
    assert_eq!(s.flush(&mut pending, FlushEvent::Placed), FlushAction::Finish(Ok(())));
    assert!(pending.is_none());
    // flushing again saves nothing, and the block is now read from its file
    assert_eq!(s.flush(&mut pending, FlushEvent::Requested), FlushAction::Finish(Ok(())));
    assert_eq!(s.get_cur_block(), block(5));
    assert_eq!(
        s.open_block(&block(5), true, OpenEvent::Requested(Ok(SPOT))),
        OpenAction::OpenFile { path, fork_ptr: SPOT },
    );
}

#[test]
fn the_first_block_names_the_sentinel_as_its_parent() {
    let mut s = extended(5);
    let mut pending: Option<PendingFlush> = None;
    s.write_node(0, &leaf(7, 9), hash(2)).unwrap();
    s.flush(&mut pending, FlushEvent::Requested);
    s.flush(&mut pending, FlushEvent::ParentFound { parent: Err(Error::NotFoundError), known: true });
    match s.flush(&mut pending, FlushEvent::TmpOpened) {
        FlushAction::Write(plan) => assert_eq!(plan.parent, TrieFileStorage::block_sentinel()),
        _ => panic!("nothing to write"),
    }
}

#[test]
fn a_failed_flush_drops_the_trie() {
    let failures = vec![
        (FlushEvent::ParentFound { parent: Err(Error::ExistsError), known: false }, Error::ExistsError),
        // the trie has no root
        (FlushEvent::TmpOpened, Error::NotFoundError),
        (
            FlushEvent::Written(Err(Error::CorruptionError("bad node".to_string()))),
            Error::CorruptionError("bad node".to_string()),
        ),
    ];
    for (event, error) in failures {
        let mut s = extended(5);
        let mut pending: Option<PendingFlush> = None;
        s.flush(&mut pending, FlushEvent::Requested);
        assert_eq!(s.flush(&mut pending, event), FlushAction::Finish(Err(error)));
        assert!(pending.is_none());
        assert!(!s.has_trie());
        assert_eq!(s.get_cur_block(), block(5));
    }
}

#[test]
fn the_open_file_is_flushed_if_it_may_be_written() {
    for readwrite in [true, false] {
        let mut s = fresh();
        let mut pending: Option<PendingFlush> = None;
        s.open_block(&block(6), readwrite, OpenEvent::FileOpened { fork_ptr: SPOT, outcome: Ok(()) });
        let expected = if readwrite { FlushAction::FlushCurrent } else { FlushAction::Finish(Ok(())) };
        assert_eq!(s.flush(&mut pending, FlushEvent::Requested), expected);
        assert_eq!(
            s.flush(&mut pending, FlushEvent::CurrentFlushed(Err(DENIED))),
            FlushAction::Finish(Err(Error::IOError(DENIED))),
        );
        assert_eq!(s.flush(&mut pending, FlushEvent::CurrentFlushed(Ok(()))), FlushAction::Finish(Ok(())));
    }
}

#[test]
fn the_open_file_is_flushed_after_the_trie() {
    let mut s = extended(5);
    let mut pending: Option<PendingFlush> = None;
    s.write_node(0, &leaf(7, 9), hash(2)).unwrap();
    s.open_block(&block(6), true, OpenEvent::FileOpened { fork_ptr: SPOT, outcome: Ok(()) });
    assert_eq!(s.flush(&mut pending, FlushEvent::Requested), FlushAction::FindParent(block(5)));
    s.flush(&mut pending, FlushEvent::ParentFound { parent: Ok(block(4)), known: true });
    s.flush(&mut pending, FlushEvent::TmpOpened);
    s.flush(&mut pending, FlushEvent::Written(Ok(())));
    assert_eq!(s.flush(&mut pending, FlushEvent::Placed), FlushAction::FlushCurrent);
}

/// Extends to a block and flushes it, and returns the path of its file and the
/// parent that the file names.
fn save(s: &mut TrieFileStorage, n: u8, parent: Result<BlockHeaderHash, Error>) -> (String, BlockHeaderHash) {
    let mut pending: Option<PendingFlush> = None;
    s.extend_to_block(&block(n), ExtendEvent::ForksExtended(Ok(())));
    s.write_node(0, &leaf(n, 9), hash(n)).unwrap();
    s.flush(&mut pending, FlushEvent::Requested);
    s.flush(&mut pending, FlushEvent::ParentFound { parent, known: true });
    let named = match s.flush(&mut pending, FlushEvent::TmpOpened) {
        FlushAction::Write(plan) => plan.parent,
        _ => panic!("nothing to write"),
    };
    let to = match s.flush(&mut pending, FlushEvent::Written(Ok(()))) {
        FlushAction::Place { from: _, to } => to,
        _ => panic!("nothing to place"),
    };
    assert_eq!(s.flush(&mut pending, FlushEvent::Placed), FlushAction::Finish(Ok(())));
    (to, named)
}

#[test]
fn a_flushed_block_is_not_read_until_it_is_opened() {
    let mut s = fresh();
    save(&mut s, 5, Ok(block(4)));
    assert_eq!(s.get_cur_block(), block(5));
    assert!(s.readwrite());
    assert_eq!(s.root_ptr(), 32);
    let mut buf = vec![1];
    for _ in 0..2 {
        assert_eq!(s.read_nodetype(&root_ptr()), Err(Error::NotFoundError));
        assert_eq!(s.read_node_hash_bytes(&root_ptr(), &mut buf), Err(Error::NotFoundError));
        assert_eq!(buf, vec![1]);
        s.block_walk(1, WalkEvent::PtrFound(Ok(SPOT)));
        s.open_block(&block(6), true, OpenEvent::Requested(Err(Error::NotFoundError)));
    }
    assert!(!s.holds_trie_of(&block(5)));
    s.open_block(&block(5), true, OpenEvent::FileOpened { fork_ptr: SPOT, outcome: Ok(()) });
    assert_eq!(
        s.read_nodetype(&TrieFileStorage::file_root_ptr()),
        Ok(Served::OnDisk(TrieFileStorage::file_root_ptr())),
    );
}

#[test]
fn a_saved_forest_is_read_back() {
    let mut s = fresh();
    let saved = vec![
        save(&mut s, 1, Err(Error::NotFoundError)),
        save(&mut s, 2, Ok(block(1))),
        save(&mut s, 3, Ok(block(1))),
        save(&mut s, 4, Ok(block(3))),
    ];
    let mut blocks = vec![];
    for (path, parent) in saved.iter().rev() {
        let name = path.rsplit('/').next().map(|name| name.to_string());
        let file = FoundFile { is_file: true, name };
        assert!(!TrieFileStorage::is_partial_write(&file));
        blocks.push((TrieFileStorage::block_of_file(&file).unwrap(), *parent));
    }
    let table = TrieFileStorage::scan_blocks(&blocks);
    assert_eq!(table.len(), 3);
    assert_eq!(table.get(&TrieFileStorage::block_sentinel().0), Some(&vec![block(1)]));
    assert_eq!(table.get(&block(1).0), Some(&vec![block(3), block(2)]));
    assert_eq!(table.get(&block(3).0), Some(&vec![block(4)]));
}
