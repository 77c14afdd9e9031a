//! Opening the storage in a directory, and emptying it. Both are a series of
//! file operations with a decision after each: the caller performs the
//! operation that an action names, and reports what came of it.
use vstd::prelude::*;
use crate::error::{Error, IoError};
use crate::hash::BlockHeaderHash;
use crate::storage::{spec_block_sentinel, StorageView, TrieFileStorage};

verus! {

/// What has come of the last action on the way to open the storage.
#[derive(Debug, PartialEq, Eq)]
pub enum SetupEvent {
    /// The directory was looked at: whether the path is that of a directory.
    DirChecked(Result<bool, IoError>),
    /// The directory was made, with those above it.
    DirCreated(Result<(), IoError>),
    /// The directory was searched for files that were never written out
    /// completely: how many there are.
    TmpScanned(Result<usize, Error>),
    /// The fork table was made from the block files.
    ForksRead(Result<(), Error>),
}

/// What to do next to open the storage.
pub enum SetupAction {
    /// Make the directory, with those above it.
    CreateDir,
    /// Search the directory for files that were never written out completely.
    ScanTmp,
    /// Make the fork table from the block files, with this block at its root.
    ReadForks(BlockHeaderHash),
    /// The storage is open.
    Ready(TrieFileStorage),
    /// The storage cannot be opened.
    Fail(Error),
}

/// What has come of the last action on the way to empty the storage.
#[derive(Debug, PartialEq, Eq)]
pub enum FormatEvent {
    /// The storage is to be emptied.
    Requested,
    /// The directory was removed, with what it holds.
    DirRemoved(Result<(), IoError>),
    /// The directory was made, with those above it.
    DirCreated(Result<(), IoError>),
}

/// What to do next to empty the storage.
#[derive(Debug, PartialEq, Eq)]
pub enum FormatAction {
    /// Remove the directory, with what it holds.
    RemoveDir,
    /// Make the directory, with those above it.
    CreateDir,
    /// Empty the fork table, and be done.
    ClearForks,
    /// The storage cannot be emptied.
    Fail(Error),
}

/// The steps to open the storage in a directory: what follows an event.
pub open spec fn setup_step(dir: Seq<char>, event: SetupEvent, action: SetupAction) -> bool {
    match event {
        SetupEvent::DirChecked(Ok(is_dir)) => action == if is_dir {
            SetupAction::ScanTmp
        } else {
            SetupAction::Fail(Error::NotDirectoryError)
        },
        SetupEvent::DirChecked(Err(e)) => action == if e.not_found {
            SetupAction::CreateDir
        } else {
            SetupAction::Fail(Error::IOError(e))
        },
        SetupEvent::DirCreated(Ok(())) => action == SetupAction::ScanTmp,
        SetupEvent::DirCreated(Err(e)) => action == SetupAction::Fail(Error::IOError(e)),
        SetupEvent::TmpScanned(Ok(count)) => action == if count > 0 {
            SetupAction::Fail(Error::PartialWriteError)
        } else {
            SetupAction::ReadForks(spec_block_sentinel())
        },
        SetupEvent::TmpScanned(Err(e)) => action == SetupAction::Fail(e),
        SetupEvent::ForksRead(Ok(())) => {
            &&& action matches SetupAction::Ready(storage)
            &&& storage.wf()
            &&& storage@ == StorageView::fresh(dir)
        },
        SetupEvent::ForksRead(Err(e)) => action == SetupAction::Fail(e),
    }
}

impl StorageView {
    /// The state once the storage has been emptied: as if it had just been
    /// opened, but that the counts go on.
    pub open spec fn emptied(self) -> Self {
        StorageView { readonly: self.readonly, stats: self.stats, ..StorageView::fresh(self.dir) }
    }
}

/// The steps to empty the storage: what follows an event, and how it changes the storage.
pub open spec fn format_step(
    before: StorageView,
    event: FormatEvent,
    after: StorageView,
    action: FormatAction,
) -> bool {
    match event {
        FormatEvent::Requested => after == before && action == if before.readonly {
            FormatAction::Fail(Error::ReadOnlyError)
        } else {
            FormatAction::RemoveDir
        },
        FormatEvent::DirRemoved(Ok(())) => after == before && action == FormatAction::CreateDir,
        FormatEvent::DirRemoved(Err(e)) => after == before && action == FormatAction::Fail(
            Error::IOError(e),
        ),
        FormatEvent::DirCreated(Ok(())) => after == before.emptied() && action
            == FormatAction::ClearForks,
        FormatEvent::DirCreated(Err(e)) => after == before && action == FormatAction::Fail(
            Error::IOError(e),
        ),
    }
}

impl TrieFileStorage {
    /// The next step to open the storage in a directory. The first is to look
    /// at the directory; it is made if it is not there, and must not hold
    /// files that were never written out completely.
    pub fn new(dir_path: &String, event: SetupEvent) -> (action: SetupAction)
        ensures
            setup_step(dir_path@, event, action),
    {
        match event {
            SetupEvent::DirChecked(Ok(is_dir)) => {
                if is_dir {
                    SetupAction::ScanTmp
                } else {
                    SetupAction::Fail(Error::NotDirectoryError)
                }
            },
            SetupEvent::DirChecked(Err(e)) => {
                if e.not_found {
                    // try to make it
                    SetupAction::CreateDir
                } else {
                    SetupAction::Fail(Error::IOError(e))
                }
            },
            SetupEvent::DirCreated(Ok(())) => SetupAction::ScanTmp,
            SetupEvent::DirCreated(Err(e)) => SetupAction::Fail(Error::IOError(e)),
            SetupEvent::TmpScanned(Ok(count)) => {
                if count > 0 {
                    SetupAction::Fail(Error::PartialWriteError)
                } else {
                    SetupAction::ReadForks(TrieFileStorage::block_sentinel())
                }
            },
            SetupEvent::TmpScanned(Err(e)) => SetupAction::Fail(e),
            SetupEvent::ForksRead(Ok(())) => SetupAction::Ready(TrieFileStorage::fresh(dir_path)),
            SetupEvent::ForksRead(Err(e)) => SetupAction::Fail(e),
        }
    }

    /// The next step to empty the storage, the directory with all its files
    /// and the trie in RAM. Storage that was opened for reading only is not
    /// emptied.
    pub fn format(&mut self, event: FormatEvent) -> (action: FormatAction)
        requires
            old(self).wf(),
        ensures
            final(self).wf(),
            format_step(old(self)@, event, final(self)@, action),
    {
        match event {
            FormatEvent::Requested => {
                if self.readonly {
                    FormatAction::Fail(Error::ReadOnlyError)
                } else {
                    FormatAction::RemoveDir
                }
            },
            FormatEvent::DirRemoved(Ok(())) => FormatAction::CreateDir,
            FormatEvent::DirRemoved(Err(e)) => FormatAction::Fail(Error::IOError(e)),
            FormatEvent::DirCreated(Ok(())) => {
                self.cur_block = TrieFileStorage::block_sentinel();
                self.cur_block_open = false;
                self.cur_block_fork_ptr = None;
                self.last_extended = None;
                self.last_extended_trie = None;
                FormatAction::ClearForks
            },
            FormatEvent::DirCreated(Err(e)) => FormatAction::Fail(Error::IOError(e)),
        }
    }
}

} // verus!
