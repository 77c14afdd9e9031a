//! Moving from block to block: adding one, opening one, and walking back to an
//! ancestor. Each is a series of file operations and questions to the fork
//! table with a decision after each: the caller performs what an action names,
//! and reports what came of it.
use vstd::prelude::*;
use crate::error::{open_error, spec_open_error, Error, IoError};
use crate::hash::{hex_of, BlockHeaderHash};
use crate::paths::{spec_block_dir, spec_block_path, spec_block_path_tmp};
use crate::ram::{TrieRAM, TrieRamView};
use crate::storage::{spec_block_sentinel, StorageView, TrieFileStorage, TrieForkPtr};

verus! {

/// What the fork table says before a block is added.
#[derive(Clone, Copy, Debug, PartialEq, Eq, Structural)]
pub struct ForkStatus {
    /// How many blocks the table holds.
    pub size: usize,
    /// Whether it holds the current block.
    pub has_current: bool,
    /// Whether it holds the block to add.
    pub has_block: bool,
}

/// What has come of the last action on the way to add a block.
#[derive(Debug, PartialEq, Eq)]
pub enum ExtendEvent {
    /// A block is to be added.
    Requested(ForkStatus),
    /// The trie in RAM was flushed.
    Flushed(Result<(), Error>),
    /// The path of the block's file was looked at: whether there is a file.
    PathChecked(Result<(), IoError>),
    /// The path of the file to write the block in was looked at.
    TmpPathChecked(Result<(), IoError>),
    /// The directory was made, with those above it.
    DirCreated(Result<(), IoError>),
    /// The file to write the block in was created and opened.
    TmpOpened(Result<(), IoError>),
    /// The parent's hash was written to the file.
    ParentWritten(Result<(), Error>),
    /// The block was added to the fork table.
    ForksExtended(Result<(), Error>),
}

/// What to do next to add a block.
#[derive(Debug, PartialEq, Eq)]
pub enum ExtendAction {
    /// Flush the trie in RAM.
    Flush,
    /// Look whether there is a file at this path, the block's.
    CheckPath(String),
    /// Look whether there is a file at this path, the one to write the block in.
    CheckTmpPath(String),
    /// Make this directory, with those above it.
    CreateDir(String),
    /// Create the file at this path, where none may be, and open it.
    OpenTmp(String),
    /// Write this hash, the parent's, to the file.
    WriteParent(BlockHeaderHash),
    /// Add a block to the fork table as a child of another.
    ExtendForks { parent: BlockHeaderHash, block: BlockHeaderHash },
    /// The block was added, or cannot be.
    Finish(Result<(), Error>),
}

/// The text with which a current block that the fork table lacks is reported.
pub open spec fn missing_block_text(bhh: BlockHeaderHash) -> Seq<char> {
    "Current block "@ + hex_of(bhh.0@) + " not in fork table"@
}

/// Whether a look at a path where no file may be ends the matter: there is
/// one, or it cannot be told.
pub open spec fn path_conflict(found: Result<(), IoError>) -> Option<Error> {
    match found {
        Ok(()) => Some(Error::ExistsError),
        Err(e) => if e.not_found {
            None
        } else {
            Some(Error::IOError(e))
        },
    }
}

fn conflict_at_path(found: Result<(), IoError>) -> (conflict: Option<Error>)
    ensures
        conflict == path_conflict(found),
{
    match found {
        Ok(()) => Some(Error::ExistsError),
        Err(e) => {
            if e.not_found {
                None
            } else {
                Some(Error::IOError(e))
            }
        },
    }
}

impl StorageView {
    /// The state once a block has been added: it is the current block, and its
    /// trie is in RAM and empty.
    pub open spec fn extended_to(self, bhh: BlockHeaderHash) -> Self {
        StorageView {
            cur_block: bhh,
            file_open: false,
            fork_ptr: None,
            last_extended: Some(bhh),
            trie: Some(TrieRamView::empty(bhh)),
            ..self
        }
    }

    /// The state once a block has been opened.
    pub open spec fn opened(
        self,
        bhh: BlockHeaderHash,
        file_open: bool,
        fork_ptr: TrieForkPtr,
        readwrite: bool,
    ) -> Self {
        StorageView {
            cur_block: bhh,
            file_open,
            fork_ptr: Some(fork_ptr),
            readonly: !readwrite,
            ..self
        }
    }
}

/// The steps to add a block: what follows an event, and how it changes the storage.
pub open spec fn extend_step(
    before: StorageView,
    bhh: BlockHeaderHash,
    event: ExtendEvent,
    after: StorageView,
    action: ExtendAction,
) -> bool {
    match event {
        ExtendEvent::Requested(forks) => if forks.size > 0 && !forks.has_current {
            &&& after == before
            &&& action matches ExtendAction::Finish(Err(Error::CorruptionError(text)))
            &&& text@ == missing_block_text(before.cur_block)
        } else if forks.has_block {
            &&& after == before
            &&& action == ExtendAction::Finish(Err(Error::ExistsError))
        } else {
            &&& after == (StorageView { readonly: false, ..before })
            &&& action == ExtendAction::Flush
        },
        ExtendEvent::Flushed(Ok(())) => {
            &&& after == before
            &&& action matches ExtendAction::CheckPath(path)
            &&& path@ == spec_block_path(before.dir, bhh)
        },
        ExtendEvent::Flushed(Err(e)) => after == before && action
            == ExtendAction::Finish(Err(e)),
        ExtendEvent::PathChecked(found) => {
            &&& after == before
            &&& match path_conflict(found) {
                Some(e) => action == ExtendAction::Finish(Err(e)),
                None => {
                    &&& action matches ExtendAction::CheckTmpPath(path)
                    &&& path@ == spec_block_path_tmp(before.dir, bhh)
                },
            }
        },
        ExtendEvent::TmpPathChecked(found) => {
            &&& after == before
            &&& match path_conflict(found) {
                Some(e) => action == ExtendAction::Finish(Err(e)),
                None => {
                    &&& action matches ExtendAction::CreateDir(path)
                    &&& path@ == spec_block_dir(before.dir, bhh)
                },
            }
        },
        ExtendEvent::DirCreated(Ok(())) => {
            &&& after == before
            &&& action matches ExtendAction::OpenTmp(path)
            &&& path@ == spec_block_path_tmp(before.dir, bhh)
        },
        ExtendEvent::DirCreated(Err(e)) => after == before && action
            == ExtendAction::Finish(Err(Error::IOError(e))),
        ExtendEvent::TmpOpened(Ok(())) => after == before && action
            == ExtendAction::WriteParent(before.cur_block),
        ExtendEvent::TmpOpened(Err(e)) => after == before && action
            == ExtendAction::Finish(Err(spec_open_error(e))),
        ExtendEvent::ParentWritten(Ok(())) => after == before && action
            == (ExtendAction::ExtendForks { parent: before.cur_block, block: bhh }),
        ExtendEvent::ParentWritten(Err(e)) => after == before && action
            == ExtendAction::Finish(Err(e)),
        ExtendEvent::ForksExtended(Ok(())) => after == before.extended_to(bhh)
            && action == ExtendAction::Finish(Ok(())),
        ExtendEvent::ForksExtended(Err(e)) => after == before && action
            == ExtendAction::Finish(Err(e)),
    }
}

impl TrieFileStorage {
    /// The text with which a current block that the fork table lacks is reported.
    fn missing_block_message(&self) -> (message: String)
        ensures
            message@ == missing_block_text(self@.cur_block),
    {
        let mut message = String::new();
        message.append("Current block ");
        message.append(self.cur_block.to_hex().as_str());
        message.append(" not in fork table");
        assert(message@ =~= missing_block_text(self@.cur_block));
        message
    }

    /// For how many nodes to set room aside in the next trie.
    fn next_size_hint(&self) -> (hint: usize)
        requires
            self@.trie is Some ==> 2 * self@.trie->0.total_bytes <= usize::MAX,
        ensures
            hint == if self@.trie is Some {
                2 * self@.trie->0.total_bytes
            } else {
                1024 * 1024
            },
    {
        match &self.last_extended_trie {
            Some(trie) => trie.size_hint() * 2,
            None => 1024 * 1024,
        }
    }

    /// The next step to extend the forest of tries to include a new block, as a
    /// child of the current one. The block must be new to the fork table and
    /// have no file, finished or not; the trie in RAM is flushed first.
    pub fn extend_to_block(&mut self, bhh: &BlockHeaderHash, event: ExtendEvent) -> (action:
        ExtendAction)
        requires
            old(self).wf(),
            event matches ExtendEvent::ForksExtended(Ok(())) ==> old(self)@.trie is Some ==> 2
                * old(self)@.trie->0.total_bytes <= usize::MAX,
        ensures
            final(self).wf(),
            extend_step(old(self)@, *bhh, event, final(self)@, action),
    {
        match event {
            ExtendEvent::Requested(forks) => {
                if forks.size > 0 && !forks.has_current {
                    return ExtendAction::Finish(
                        Err(Error::CorruptionError(self.missing_block_message())),
                    );
                }
                if forks.has_block {
                    return ExtendAction::Finish(Err(Error::ExistsError));
                }
                self.readonly = false;
                ExtendAction::Flush
            },
            ExtendEvent::Flushed(Ok(())) => ExtendAction::CheckPath(
                TrieFileStorage::block_path(&self.dir_path, bhh),
            ),
            ExtendEvent::Flushed(Err(e)) => ExtendAction::Finish(Err(e)),
            ExtendEvent::PathChecked(found) => match conflict_at_path(found) {
                Some(e) => ExtendAction::Finish(Err(e)),
                None => ExtendAction::CheckTmpPath(
                    TrieFileStorage::block_path_tmp(&self.dir_path, bhh),
                ),
            },
            ExtendEvent::TmpPathChecked(found) => match conflict_at_path(found) {
                Some(e) => ExtendAction::Finish(Err(e)),
                None => ExtendAction::CreateDir(TrieFileStorage::block_dir(&self.dir_path, bhh)),
            },
            ExtendEvent::DirCreated(Ok(())) => ExtendAction::OpenTmp(
                TrieFileStorage::block_path_tmp(&self.dir_path, bhh),
            ),
            ExtendEvent::DirCreated(Err(e)) => ExtendAction::Finish(Err(Error::IOError(e))),
            ExtendEvent::TmpOpened(Ok(())) => ExtendAction::WriteParent(self.cur_block),
            ExtendEvent::TmpOpened(Err(e)) => ExtendAction::Finish(Err(open_error(e))),
            ExtendEvent::ParentWritten(Ok(())) => ExtendAction::ExtendForks {
                parent: self.cur_block,
                block: *bhh,
            },
            ExtendEvent::ParentWritten(Err(e)) => ExtendAction::Finish(Err(e)),
            ExtendEvent::ForksExtended(Ok(())) => {
                let size_hint: usize = self.next_size_hint();
                let trie_buf = TrieRAM::new(bhh, size_hint);
                self.cur_block = *bhh;
                self.cur_block_open = false;
                self.cur_block_fork_ptr = None;
                self.last_extended = Some(*bhh);
                self.last_extended_trie = Some(trie_buf);
                ExtendAction::Finish(Ok(()))
            },
            ExtendEvent::ForksExtended(Err(e)) => ExtendAction::Finish(Err(e)),
        }
    }
}

/// What has come of the last action on the way to open a block.
#[derive(Debug, PartialEq, Eq)]
pub enum OpenEvent {
    /// A block is to be opened: where in the fork table it is.
    Requested(Result<TrieForkPtr, Error>),
    /// The block's file was opened; the block is where in the fork table it was found to be.
    FileOpened { fork_ptr: TrieForkPtr, outcome: Result<(), IoError> },
}

/// What to do next to open a block.
#[derive(Debug, PartialEq, Eq)]
pub enum OpenAction {
    /// Open the file at this path, for writing too where that was asked for.
    OpenFile { path: String, fork_ptr: TrieForkPtr },
    /// The block was opened, or cannot be.
    Finish(Result<(), Error>),
}

/// What has come of the last action on the way to an ancestor.
#[derive(Debug, PartialEq, Eq)]
pub enum WalkEvent {
    /// An ancestor of the current block is to be found.
    Requested,
    /// The current block was looked up in the fork table: where it is.
    PtrFound(Result<TrieForkPtr, Error>),
    /// The fork table was walked back: which block is there.
    Walked(Result<BlockHeaderHash, Error>),
}

/// What to do next to find an ancestor.
#[derive(Debug, PartialEq, Eq)]
pub enum WalkAction {
    /// Look up this block, the current one, in the fork table.
    FindPtr(BlockHeaderHash),
    /// Walk back in the fork table from a block, which is at the given spot,
    /// by a number of blocks.
    WalkBack { fork_ptr: TrieForkPtr, from: BlockHeaderHash, back_block: u32 },
    /// The ancestor, or why there is none.
    Finish(Result<BlockHeaderHash, Error>),
}

/// The steps to open a block: what follows an event, and how it changes the storage.
pub open spec fn open_step(
    before: StorageView,
    bhh: BlockHeaderHash,
    readwrite: bool,
    event: OpenEvent,
    after: StorageView,
    action: OpenAction,
) -> bool {
    match event {
        OpenEvent::Requested(Ok(fork_ptr)) => if before.last_extended == Some(bhh) {
            &&& after == before.opened(bhh, false, fork_ptr, readwrite)
            &&& action == OpenAction::Finish(Ok(()))
        } else {
            &&& after == before
            &&& action matches OpenAction::OpenFile { path, fork_ptr: kept }
            &&& path@ == spec_block_path(before.dir, bhh)
            &&& kept == fork_ptr
        },
        OpenEvent::Requested(Err(e)) => after == before && action
            == OpenAction::Finish(Err(e)),
        OpenEvent::FileOpened { fork_ptr, outcome: Ok(()) } => after
            == before.opened(bhh, true, fork_ptr, readwrite) && action
            == OpenAction::Finish(Ok(())),
        OpenEvent::FileOpened { fork_ptr, outcome: Err(e) } => after == before
            && action == OpenAction::Finish(Err(spec_open_error(e))),
    }
}

/// The steps to find an ancestor: what follows an event, and how it changes the storage.
pub open spec fn walk_step(
    before: StorageView,
    back_block: u32,
    event: WalkEvent,
    after: StorageView,
    action: WalkAction,
) -> bool {
    match event {
        WalkEvent::Requested => after == before && action
            == match before.fork_ptr {
            Some(fork_ptr) => WalkAction::WalkBack {
                fork_ptr,
                from: before.cur_block,
                back_block,
            },
            None => WalkAction::FindPtr(before.cur_block),
        },
        WalkEvent::PtrFound(Ok(fork_ptr)) => {
            &&& after == (StorageView { fork_ptr: Some(fork_ptr), ..before })
            &&& action == (WalkAction::WalkBack {
                fork_ptr,
                from: before.cur_block,
                back_block,
            })
        },
        WalkEvent::PtrFound(Err(e)) => after == before && action
            == WalkAction::Finish(Err(e)),
        WalkEvent::Walked(Ok(bhh)) => after == before && action
            == WalkAction::Finish(
            if bhh == spec_block_sentinel() {
                Err(Error::NotFoundError)
            } else {
                Ok(bhh)
            },
        ),
        WalkEvent::Walked(Err(e)) => after == before && action
            == WalkAction::Finish(Err(e)),
    }
}

impl TrieFileStorage {
    /// The next step to make a block of the fork table the current one. The
    /// one whose trie is in RAM needs no file.
    pub fn open_block(&mut self, bhh: &BlockHeaderHash, readwrite: bool, event: OpenEvent) -> (action:
        OpenAction)
        requires
            old(self).wf(),
            event is FileOpened ==> old(self)@.last_extended != Some(*bhh),
        ensures
            final(self).wf(),
            open_step(old(self)@, *bhh, readwrite, event, final(self)@, action),
    {
        match event {
            OpenEvent::Requested(Ok(fork_ptr)) => {
                if self.holds_trie_of(bhh) {
                    // nothing to do -- we're already ready.
                    // just clear out.
                    self.cur_block_open = false;
                    self.cur_block = *bhh;
                    self.cur_block_fork_ptr = Some(fork_ptr);
                    self.readonly = !readwrite;
                    return OpenAction::Finish(Ok(()));
                }
                // opening a different trie than the one we're extending
                OpenAction::OpenFile { path: self.cached_block_path(bhh), fork_ptr }
            },
            OpenEvent::Requested(Err(e)) => OpenAction::Finish(Err(e)),
            OpenEvent::FileOpened { fork_ptr, outcome: Ok(()) } => {
                self.cur_block = *bhh;
                self.cur_block_open = true;
                self.cur_block_fork_ptr = Some(fork_ptr);
                self.readonly = !readwrite;
                OpenAction::Finish(Ok(()))
            },
            OpenEvent::FileOpened { fork_ptr: _, outcome: Err(e) } => OpenAction::Finish(
                Err(open_error(e)),
            ),
        }
    }

    /// The next step to find the block that is `back_block` blocks before the
    /// current one. The sentinel is not a block to be found.
    pub fn block_walk(&mut self, back_block: u32, event: WalkEvent) -> (action: WalkAction)
        requires
            old(self).wf(),
        ensures
            final(self).wf(),
            walk_step(old(self)@, back_block, event, final(self)@, action),
    {
        match event {
            WalkEvent::Requested => match self.cur_block_fork_ptr {
                Some(fork_ptr) => WalkAction::WalkBack {
                    fork_ptr,
                    from: self.cur_block,
                    back_block,
                },
                None => WalkAction::FindPtr(self.cur_block),
            },
            WalkEvent::PtrFound(Ok(fork_ptr)) => {
                self.cur_block_fork_ptr = Some(fork_ptr);
                WalkAction::WalkBack { fork_ptr, from: self.cur_block, back_block }
            },
            WalkEvent::PtrFound(Err(e)) => WalkAction::Finish(Err(e)),
            WalkEvent::Walked(Ok(bhh)) => {
                if bhh == TrieFileStorage::block_sentinel() {
                    WalkAction::Finish(Err(Error::NotFoundError))
                } else {
                    WalkAction::Finish(Ok(bhh))
                }
            },
            WalkEvent::Walked(Err(e)) => WalkAction::Finish(Err(e)),
        }
    }
}

} // verus!
