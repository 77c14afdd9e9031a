//! Flushing: saving the trie in RAM to its file, and putting the file into
//! place once it is complete. The caller performs what an action names, and
//! reports what came of it.
use vstd::prelude::*;
use crate::dump::{dumpable, sound, visit_order, DumpPlan};
use crate::error::{Error, IoError};
use crate::hash::BlockHeaderHash;
use crate::paths::{spec_block_path, spec_block_path_tmp};
use crate::ram::{TrieRAM, TrieRamView};
use crate::storage::{spec_block_sentinel, StorageView, TrieFileStorage};
use crate::walk::fits_by;

verus! {

/// A flush that is under way: the trie, which is no longer the storage's, the
/// files that it goes to, and the block that its file names as its parent.
pub struct PendingFlush {
    pub(crate) block: BlockHeaderHash,
    pub(crate) trie: TrieRAM,
    pub(crate) tmp_path: String,
    pub(crate) path: String,
    pub(crate) parent: BlockHeaderHash,
}

/// The state of a flush that is under way.
#[verifier::ext_equal]
pub struct PendingView {
    pub block: BlockHeaderHash,
    pub trie: TrieRamView,
    pub tmp_path: Seq<char>,
    pub path: Seq<char>,
    pub parent: BlockHeaderHash,
}

impl View for PendingFlush {
    type V = PendingView;

    closed spec fn view(&self) -> PendingView {
        PendingView {
            block: self.block,
            trie: self.trie@,
            tmp_path: self.tmp_path@,
            path: self.path@,
            parent: self.parent,
        }
    }
}

impl PendingFlush {
    /// The invariant of the type: the trie is that of the block.
    pub closed spec fn wf(&self) -> bool {
        &&& self.trie.wf()
        &&& self.trie@.block_header == self.block
    }

    /// Whether a walk of the trie is over after at most `limit` nodes, and can
    /// be counted: if so, the trie can be written out.
    pub fn fits_within(&self, limit: usize) -> (fits: bool)
        ensures
            fits == fits_by(self@.trie, limit as nat),
            fits ==> dumpable(self@.trie),
    {
        self.trie.fits_within(limit)
    }
}

/// Whether there is a flush under way, and what it is.
pub open spec fn pending_view(pending: Option<PendingFlush>) -> Option<PendingView> {
    match pending {
        Some(flush) => Some(flush@),
        None => None,
    }
}

/// Whether a flush that is under way is in order.
pub open spec fn pending_wf(pending: Option<PendingFlush>) -> bool {
    pending is Some ==> pending->0.wf()
}

/// What has come of the last action on the way to flush the storage.
#[derive(Debug, PartialEq, Eq)]
pub enum FlushEvent {
    /// The storage is to be flushed.
    Requested,
    /// The parent of the block was looked up in the fork table, and so was
    /// whether the table knows the block itself.
    ParentFound { parent: Result<BlockHeaderHash, Error>, known: bool },
    /// The file to write the block in was opened, and emptied.
    TmpOpened,
    /// The trie was written to the file. No file operation may have failed.
    Written(Result<(), Error>),
    /// The file was synced, and put into place.
    Placed,
    /// The open file of the current block was flushed.
    CurrentFlushed(Result<(), IoError>),
}

/// What to do next to flush the storage.
#[derive(Debug, PartialEq, Eq)]
pub enum FlushAction {
    /// Look up the parent of this block in the fork table.
    FindParent(BlockHeaderHash),
    /// Open the file at this path for writing, and empty it. This may not fail.
    OpenTmp(String),
    /// Write a trie to the file. No file operation on the way may fail.
    Write(DumpPlan),
    /// Sync the file, and rename it. Neither may fail.
    Place { from: String, to: String },
    /// Flush the open file of the current block.
    FlushCurrent,
    /// The storage was flushed, or cannot be.
    Finish(Result<(), Error>),
}

impl StorageView {
    /// The state once the trie in RAM was taken away to be flushed.
    pub open spec fn released(self) -> Self {
        StorageView { last_extended: None, trie: None, ..self }
    }

    /// The step that follows once there is no trie to save: an open file that
    /// may be written is flushed.
    pub open spec fn closing_action(self) -> FlushAction {
        if !self.readonly && self.file_open {
            FlushAction::FlushCurrent
        } else {
            FlushAction::Finish(Ok(()))
        }
    }
}

/// The steps to flush the storage: what follows an event, and how it changes
/// the storage and the flush that is under way.
pub open spec fn flush_step(
    before: StorageView,
    pending: Option<PendingView>,
    event: FlushEvent,
    after: StorageView,
    pending_after: Option<PendingView>,
    action: FlushAction,
) -> bool {
    &&& after == if event is Requested {
        before.released()
    } else {
        before
    }
    &&& match event {
        FlushEvent::Requested => match before.last_extended {
            Some(bhh) => {
                &&& pending_after == Some(
                    PendingView {
                        block: bhh,
                        trie: before.trie->0,
                        tmp_path: spec_block_path_tmp(before.dir, bhh),
                        path: spec_block_path(before.dir, bhh),
                        parent: spec_block_sentinel(),
                    },
                )
                &&& action == FlushAction::FindParent(bhh)
            },
            None => pending_after is None && action == before.closing_action(),
        },
        FlushEvent::ParentFound { parent, known } => {
            let flush = pending->0;
            match parent {
                Ok(bhh) => {
                    &&& pending_after == Some(
                        PendingView { parent: bhh, ..flush },
                    )
                    &&& action matches FlushAction::OpenTmp(path)
                    &&& path@ == flush.tmp_path
                },
                Err(e) => if known {
                    &&& pending_after == Some(
                        PendingView { parent: spec_block_sentinel(), ..flush },
                    )
                    &&& action matches FlushAction::OpenTmp(path)
                    &&& path@ == flush.tmp_path
                } else {
                    pending_after is None && action == FlushAction::Finish(Err(e))
                },
            }
        },
        FlushEvent::TmpOpened => {
            let flush = pending->0;
            if sound(flush.trie.nodes) {
                &&& action matches FlushAction::Write(plan)
                &&& plan.lays_out(flush.trie.nodes, flush.parent)
                &&& pending_after == Some(
                    PendingView {
                        trie: TrieRamView {
                            stats: flush.trie.stats.after_reads(
                                visit_order(flush.trie.nodes, plan.entries@.len()),
                            ),
                            ..flush.trie
                        },
                        ..flush
                    },
                )
            } else {
                pending_after is None && action == FlushAction::Finish(
                    Err(Error::NotFoundError),
                )
            }
        },
        FlushEvent::Written(Ok(())) => {
            &&& pending_after == pending
            &&& action matches FlushAction::Place { from, to }
            &&& from@ == pending->0.tmp_path
            &&& to@ == pending->0.path
        },
        FlushEvent::Written(Err(e)) => pending_after is None && action
            == FlushAction::Finish(Err(e)),
        FlushEvent::Placed => pending_after is None && action
            == before.closing_action(),
        FlushEvent::CurrentFlushed(outcome) => {
            &&& pending_after == pending
            &&& action == FlushAction::Finish(
                match outcome {
                    Ok(()) => Ok(()),
                    Err(e) => Err(Error::IOError(e)),
                },
            )
        },
    }
}

impl TrieFileStorage {
    /// The step that follows once there is no trie to save.
    fn close_flush(&self) -> (action: FlushAction)
        ensures
            action == self@.closing_action(),
    {
        if !self.readonly && self.cur_block_open {
            FlushAction::FlushCurrent
        } else {
            FlushAction::Finish(Ok(()))
        }
    }

    /// The next step to save the trie in RAM to disk and put its file into
    /// place. The trie is taken out of RAM first, and is gone if a step fails.
    /// The first block ever saved has no parent in the fork table; its file
    /// names the sentinel. There is no going on from a file operation that fails
    /// while the trie is saved, and none is reported.
    pub fn flush(&mut self, pending: &mut Option<PendingFlush>, event: FlushEvent) -> (action:
        FlushAction)
        requires
            old(self).wf(),
            pending_wf(*old(pending)),
            !(event is Requested) && !(event is CurrentFlushed) ==> *old(pending) is Some,
            event is TmpOpened ==> dumpable(pending_view(*old(pending))->0.trie),
            !(event matches FlushEvent::Written(Err(Error::IOError(_)))),
        ensures
            final(self).wf(),
            pending_wf(*final(pending)),
            flush_step(
                old(self)@,
                pending_view(*old(pending)),
                event,
                final(self)@,
                pending_view(*final(pending)),
                action,
            ),
    {
        match event {
            FlushEvent::Requested => {
                match (self.last_extended.take(), self.last_extended_trie.take()) {
                    (Some(bhh), Some(trie)) => {
                        let tmp_path = TrieFileStorage::block_path_tmp(&self.dir_path, &bhh);
                        let path = self.cached_block_path(&bhh);
                        *pending = Some(
                            PendingFlush {
                                block: bhh,
                                trie,
                                tmp_path,
                                path,
                                parent: TrieFileStorage::block_sentinel(),
                            },
                        );
                        FlushAction::FindParent(bhh)
                    },
                    (_, _) => {
                        *pending = None;
                        self.close_flush()
                    },
                }
            },
            FlushEvent::ParentFound { parent, known } => {
                let mut flush = pending.take().unwrap();
                match parent {
                    Ok(bhh) => {
                        flush.parent = bhh;
                    },
                    Err(e) => {
                        if known {
                            // first block ever dumped
                            flush.parent = TrieFileStorage::block_sentinel();
                        } else {
                            return FlushAction::Finish(Err(e));
                        }
                    },
                }
                let tmp_path = flush.tmp_path.clone();
                *pending = Some(flush);
                FlushAction::OpenTmp(tmp_path)
            },
            FlushEvent::TmpOpened => {
                let mut flush = pending.take().unwrap();
                match flush.trie.dump(&flush.block, &flush.parent) {
                    Ok(plan) => {
                        *pending = Some(flush);
                        FlushAction::Write(plan)
                    },
                    Err(e) => FlushAction::Finish(Err(e)),
                }
            },
            FlushEvent::Written(Ok(())) => {
                let flush = pending.take().unwrap();
                let from = flush.tmp_path.clone();
                let to = flush.path.clone();
                *pending = Some(flush);
                // atomically put this trie file in place
                FlushAction::Place { from, to }
            },
            FlushEvent::Written(Err(e)) => {
                *pending = None;
                FlushAction::Finish(Err(e))
            },
            FlushEvent::Placed => {
                *pending = None;
                self.close_flush()
            },
            FlushEvent::CurrentFlushed(Ok(())) => FlushAction::Finish(Ok(())),
            FlushEvent::CurrentFlushed(Err(e)) => FlushAction::Finish(Err(Error::IOError(e))),
        }
    }
}

} // verus!
