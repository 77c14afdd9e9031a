//! What holds of a whole run of steps: how opening and emptying the storage,
//! adding and opening a block, walking back and flushing go from the request to
//! the end, whatever comes of the file operations on the way.
use vstd::prelude::*;
use crate::blocks::{
    extend_step, open_step, path_conflict, walk_step, ExtendAction, ExtendEvent, OpenAction,
    OpenEvent, WalkAction, WalkEvent,
};
use crate::dump::{lemma_order_grows, root_ptr, sound, visit_order, write_offset};
use crate::error::{Error, IoError};
use crate::flush::{flush_step, FlushAction, FlushEvent, PendingView};
use crate::hash::{hex_of, BlockHeaderHash, TrieHash, BLOCK_HEADER_HASH_ENCODED_SIZE};
use crate::node::{TrieNodeType, TriePtr};
use crate::paths::{law_block_path_parts, spec_block_path, spec_block_path_tmp};
use crate::setup::{
    format_step, setup_step, FormatAction, FormatEvent, SetupAction, SetupEvent,
};
use crate::storage::{
    law_sentinel_is_all_ones, spec_block_sentinel, Served, StorageView, TrieFileStorage, TrieForkPtr,
};

verus! {

/// One step on the way to add a block.
pub struct ExtendMove {
    pub before: StorageView,
    pub event: ExtendEvent,
    pub after: StorageView,
    pub action: ExtendAction,
}

/// Whether an event reports what came of an action.
pub open spec fn extend_answers(action: ExtendAction, event: ExtendEvent) -> bool {
    match action {
        ExtendAction::Flush => event is Flushed,
        ExtendAction::CheckPath(_) => event is PathChecked,
        ExtendAction::CheckTmpPath(_) => event is TmpPathChecked,
        ExtendAction::CreateDir(_) => event is DirCreated,
        ExtendAction::OpenTmp(_) => event is TmpOpened,
        ExtendAction::WriteParent(_) => event is ParentWritten,
        ExtendAction::ExtendForks { .. } => event is ForksExtended,
        ExtendAction::Finish(_) => false,
    }
}

/// The state that the storage is in when the next event comes. A flush takes
/// the trie out of RAM, whatever comes of it.
pub open spec fn extend_meanwhile(m: ExtendMove) -> StorageView {
    if m.action is Flush {
        m.after.released()
    } else {
        m.after
    }
}

/// Whether some steps are a run, from the request on, on which every event
/// reports what came of the action before it.
pub open spec fn extend_run(bhh: BlockHeaderHash, moves: Seq<ExtendMove>) -> bool {
    &&& moves.len() > 0
    &&& moves[0].event is Requested
    &&& forall|i: int| 0 <= i < moves.len() ==> #[trigger] extend_move_at(bhh, moves, i)
}

/// Whether one of some steps is one that adding a block allows, after the one before it.
pub open spec fn extend_move_at(bhh: BlockHeaderHash, moves: Seq<ExtendMove>, i: int) -> bool {
    &&& extend_step(moves[i].before, bhh, moves[i].event, moves[i].after, moves[i].action)
    &&& i > 0 ==> {
        &&& extend_answers(moves[i - 1].action, moves[i].event)
        &&& moves[i].before == extend_meanwhile(moves[i - 1])
    }
}

/// Which place an event has on the way to add a block.
pub open spec fn extend_rank(event: ExtendEvent) -> int {
    match event {
        ExtendEvent::Requested(_) => 0,
        ExtendEvent::Flushed(_) => 1,
        ExtendEvent::PathChecked(_) => 2,
        ExtendEvent::TmpPathChecked(_) => 3,
        ExtendEvent::DirCreated(_) => 4,
        ExtendEvent::TmpOpened(_) => 5,
        ExtendEvent::ParentWritten(_) => 6,
        ExtendEvent::ForksExtended(_) => 7,
    }
}

/// The storage as a run leaves it, if the run goes past the request and does not add the block.
pub open spec fn extend_begun(before: StorageView) -> StorageView {
    StorageView { readonly: false, ..before.released() }
}

/// Every event of a run comes at its place.
proof fn lemma_extend_order(bhh: BlockHeaderHash, moves: Seq<ExtendMove>, i: int)
    requires
        extend_run(bhh, moves),
        0 <= i < moves.len(),
    ensures
        extend_rank(moves[i].event) == i,
        i > 0 ==> moves[i].before == extend_begun(moves[0].before),
    decreases i,
{
    if i > 0 {
        lemma_extend_order(bhh, moves, i - 1);
        assert(extend_move_at(bhh, moves, i - 1));
        assert(extend_move_at(bhh, moves, i));
        assert(moves[i].before =~= extend_begun(moves[0].before));
    }
}

/// A run to add a block is over after at most eight steps.
pub proof fn law_extend_ends(bhh: BlockHeaderHash, moves: Seq<ExtendMove>)
    requires
        extend_run(bhh, moves),
    ensures
        moves.len() <= 8,
{
    lemma_extend_order(bhh, moves, moves.len() - 1);
}

/// A block is added only if the fork table lacked it and held the current
/// block, or held none at all; neither its file nor the one to write it in was
/// there; and everything that was tried succeeded. Its file names as its parent
/// the block that was current before, and afterwards it is the current block
/// itself, with an empty trie in RAM that may be written.
pub proof fn law_extend_adds_the_block(bhh: BlockHeaderHash, moves: Seq<ExtendMove>)
    requires
        extend_run(bhh, moves),
        moves.last().action == ExtendAction::Finish(Ok(())),
    ensures
        moves.len() == 8,
        ({
            let forks = moves[0].event->Requested_0;
            !forks.has_block && (forks.size > 0 ==> forks.has_current)
        }),
        moves[1].event->Flushed_0 is Ok,
        path_conflict(moves[2].event->PathChecked_0) is None,
        path_conflict(moves[3].event->TmpPathChecked_0) is None,
        moves[4].event->DirCreated_0 is Ok,
        moves[5].event->TmpOpened_0 is Ok,
        moves[5].action == ExtendAction::WriteParent(moves[0].before.cur_block),
        moves[6].event->ParentWritten_0 is Ok,
        moves[6].action == (ExtendAction::ExtendForks {
            parent: moves[0].before.cur_block,
            block: bhh,
        }),
        moves[7].event->ForksExtended_0 is Ok,
        moves[7].after == extend_begun(moves[0].before).extended_to(bhh),
{
    let last = moves.len() - 1;
    lemma_extend_order(bhh, moves, last);
    assert(extend_move_at(bhh, moves, last));
    lemma_extend_goes_on(bhh, moves, 0);
    lemma_extend_goes_on(bhh, moves, 1);
    lemma_extend_goes_on(bhh, moves, 2);
    lemma_extend_goes_on(bhh, moves, 3);
    lemma_extend_goes_on(bhh, moves, 4);
    lemma_extend_goes_on(bhh, moves, 5);
    lemma_extend_goes_on(bhh, moves, 6);
}

/// What a step that is not the last one tells.
proof fn lemma_extend_goes_on(bhh: BlockHeaderHash, moves: Seq<ExtendMove>, i: int)
    requires
        extend_run(bhh, moves),
        0 <= i < moves.len() - 1,
    ensures
        extend_rank(moves[i].event) == i,
        i > 0 ==> moves[i].before == extend_begun(moves[0].before),
        extend_step(moves[i].before, bhh, moves[i].event, moves[i].after, moves[i].action),
        !(moves[i].action is Finish),
{
    lemma_extend_order(bhh, moves, i);
    assert(extend_move_at(bhh, moves, i));
    assert(extend_move_at(bhh, moves, i + 1));
}

/// If a block is not added, the current block stays the current one, and the
/// forest is as it was, but that the trie in RAM may have been flushed.
pub proof fn law_extend_failure_keeps_the_block(bhh: BlockHeaderHash, moves: Seq<ExtendMove>)
    requires
        extend_run(bhh, moves),
        moves.last().action matches ExtendAction::Finish(Err(_)),
    ensures
        moves.len() == 1 ==> moves.last().after == moves[0].before,
        moves.len() > 1 ==> moves.last().after == extend_begun(moves[0].before),
        moves.last().after.cur_block == moves[0].before.cur_block,
{
    let last = moves.len() - 1;
    lemma_extend_order(bhh, moves, last);
    assert(extend_move_at(bhh, moves, last));
}

/// Whether an event tells that the block to add is there already.
pub open spec fn block_is_there(event: ExtendEvent) -> bool {
    match event {
        ExtendEvent::Requested(forks) => forks.has_block && (forks.size > 0 ==> forks.has_current),
        ExtendEvent::PathChecked(found) => found is Ok,
        ExtendEvent::TmpPathChecked(found) => found is Ok,
        _ => false,
    }
}

/// A block that is there already, in the fork table, as a file, or as a file in
/// which it is being written, is not added again.
pub proof fn law_block_is_not_added_twice(bhh: BlockHeaderHash, moves: Seq<ExtendMove>, i: int)
    requires
        extend_run(bhh, moves),
        0 <= i < moves.len(),
        block_is_there(moves[i].event),
    ensures
        moves.len() == i + 1,
        moves.last().action == ExtendAction::Finish(Err(Error::ExistsError)),
{
    assert(extend_move_at(bhh, moves, i));
    if i + 1 < moves.len() {
        assert(extend_move_at(bhh, moves, i + 1));
    }
}

/// One step on the way to flush the storage.
pub struct FlushMove {
    pub before: StorageView,
    pub pending: Option<PendingView>,
    pub event: FlushEvent,
    pub after: StorageView,
    pub pending_after: Option<PendingView>,
    pub action: FlushAction,
}

/// Whether an event reports what came of an action.
pub open spec fn flush_answers(action: FlushAction, event: FlushEvent) -> bool {
    match action {
        FlushAction::FindParent(_) => event is ParentFound,
        FlushAction::OpenTmp(_) => event is TmpOpened,
        FlushAction::Write(_) => event is Written,
        FlushAction::Place { .. } => event is Placed,
        FlushAction::FlushCurrent => event is CurrentFlushed,
        FlushAction::Finish(_) => false,
    }
}

/// Whether some steps are a run, from the request on, on which every event
/// reports what came of the action before it.
pub open spec fn flush_run(moves: Seq<FlushMove>) -> bool {
    &&& moves.len() > 0
    &&& moves[0].event is Requested
    &&& forall|i: int| 0 <= i < moves.len() ==> #[trigger] flush_move_at(moves, i)
}

/// Whether one of some steps is one that a flush allows, after the one before it.
pub open spec fn flush_move_at(moves: Seq<FlushMove>, i: int) -> bool {
    &&& flush_step(
        moves[i].before,
        moves[i].pending,
        moves[i].event,
        moves[i].after,
        moves[i].pending_after,
        moves[i].action,
    )
    &&& i > 0 ==> {
        &&& flush_answers(moves[i - 1].action, moves[i].event)
        &&& moves[i].before == moves[i - 1].after
        &&& moves[i].pending == moves[i - 1].pending_after
    }
}

/// Which place an event has on the way to flush a trie.
pub open spec fn flush_rank(event: FlushEvent) -> int {
    match event {
        FlushEvent::Requested => 0,
        FlushEvent::ParentFound { .. } => 1,
        FlushEvent::TmpOpened => 2,
        FlushEvent::Written(_) => 3,
        FlushEvent::Placed => 4,
        FlushEvent::CurrentFlushed(_) => 5,
    }
}

/// The parent that the file of a block is to name, by what the fork table says.
pub open spec fn parent_to_name(event: FlushEvent) -> BlockHeaderHash {
    match event->parent {
        Ok(parent) => parent,
        Err(_) => spec_block_sentinel(),
    }
}

/// A run to flush takes the trie out of RAM and changes nothing else of the storage.
proof fn lemma_flush_state(moves: Seq<FlushMove>, i: int)
    requires
        flush_run(moves),
        0 <= i < moves.len(),
    ensures
        moves[i].after == moves[0].before.released(),
        flush_rank(moves[i].event) >= i,
        i > 0 ==> flush_rank(moves[i].event) > flush_rank(moves[i - 1].event),
    decreases i,
{
    assert(flush_move_at(moves, i));
    if i > 0 {
        lemma_flush_state(moves, i - 1);
        assert(flush_move_at(moves, i - 1));
    }
}

/// A run to flush is over after at most six steps.
pub proof fn law_flush_ends(moves: Seq<FlushMove>)
    requires
        flush_run(moves),
    ensures
        moves.len() <= 6,
{
    lemma_flush_state(moves, moves.len() - 1);
}

/// A flush leaves no trie in RAM, whatever comes of it, and changes nothing
/// else of the storage.
pub proof fn law_flush_releases_the_trie(moves: Seq<FlushMove>)
    requires
        flush_run(moves),
    ensures
        moves.last().after == moves[0].before.released(),
{
    lemma_flush_state(moves, moves.len() - 1);
}

/// A flush that succeeds has saved the trie that was in RAM: it was laid out as
/// a file, written where no complete file is expected, and the file was then put
/// into place as the block's. The file names the block's parent, or the sentinel
/// if the fork table has none for a block that it holds.
pub proof fn law_flush_saves_the_trie(moves: Seq<FlushMove>, bhh: BlockHeaderHash)
    requires
        flush_run(moves),
        moves[0].before.last_extended == Some(bhh),
        moves.last().action == FlushAction::Finish(Ok(())),
    ensures
        moves.len() >= 5,
        moves[0].action == FlushAction::FindParent(bhh),
        moves[1].event is ParentFound,
        moves[1].event->parent is Ok || moves[1].event->known,
        moves[2].event is TmpOpened,
        moves[2].action is Write,
        moves[2].action->Write_0.lays_out(
            moves[0].before.trie->0.nodes,
            parent_to_name(moves[1].event),
        ),
        moves[3].event->Written_0 is Ok,
        moves[3].action is Place,
        moves[3].action->from@ == spec_block_path_tmp(moves[0].before.dir, bhh),
        moves[3].action->to@ == spec_block_path(moves[0].before.dir, bhh),
        moves[4].event is Placed,
{
    assert(flush_move_at(moves, 0));
    assert(flush_move_at(moves, 1));
    assert(flush_move_at(moves, 2));
    assert(flush_move_at(moves, 3));
    assert(flush_move_at(moves, 4));
}

/// Flushing twice is the same as flushing once: there is no trie left for the
/// second run to save, and at most the open file of the current block is
/// flushed again.
pub proof fn law_flush_is_idempotent(first: Seq<FlushMove>, second: Seq<FlushMove>)
    requires
        flush_run(first),
        flush_run(second),
        second[0].before == first.last().after,
    ensures
        second[0].action == second[0].before.closing_action(),
        second.len() <= 2,
        second.last().after == first.last().after,
{
    lemma_flush_state(first, first.len() - 1);
    lemma_flush_state(second, second.len() - 1);
    assert(flush_move_at(second, 0));
    if second.len() > 1 {
        assert(flush_move_at(second, 1));
    }
    if second.len() > 2 {
        assert(flush_move_at(second, 2));
    }
    assert(second.last().after =~= first.last().after);
}

/// One step on the way to open the storage.
pub struct SetupMove {
    pub event: SetupEvent,
    pub action: SetupAction,
}

/// Whether an event reports what came of an action.
pub open spec fn setup_answers(action: SetupAction, event: SetupEvent) -> bool {
    match action {
        SetupAction::CreateDir => event is DirCreated,
        SetupAction::ScanTmp => event is TmpScanned,
        SetupAction::ReadForks(_) => event is ForksRead,
        SetupAction::Ready(_) => false,
        SetupAction::Fail(_) => false,
    }
}

/// Whether one of some steps is one that opening the storage allows, after the
/// one before it.
pub open spec fn setup_move_at(dir: Seq<char>, moves: Seq<SetupMove>, i: int) -> bool {
    &&& setup_step(dir, moves[i].event, moves[i].action)
    &&& i > 0 ==> setup_answers(moves[i - 1].action, moves[i].event)
}

/// Whether some steps are a run, from a look at the directory on, on which
/// every event reports what came of the action before it.
pub open spec fn setup_run(dir: Seq<char>, moves: Seq<SetupMove>) -> bool {
    &&& moves.len() > 0
    &&& moves[0].event is DirChecked
    &&& forall|i: int| 0 <= i < moves.len() ==> #[trigger] setup_move_at(dir, moves, i)
}

/// Storage is opened only in a directory, which may have to be made first, that
/// holds no partial write, and only once the fork table was made from its
/// files. It is then as fresh storage is.
pub proof fn law_setup_needs_a_clean_directory(dir: Seq<char>, moves: Seq<SetupMove>)
    requires
        setup_run(dir, moves),
        moves.last().action is Ready,
    ensures
        moves[0].event->DirChecked_0 == Ok::<bool, IoError>(true) && moves.len() == 3
            || moves[0].event->DirChecked_0 is Err
            && moves[0].event->DirChecked_0->Err_0.not_found && moves.len() == 4
            && moves[1].event is DirCreated && moves[1].event->DirCreated_0 is Ok,
        moves[moves.len() - 2].event == SetupEvent::TmpScanned(Ok(0)),
        moves[moves.len() - 2].action == SetupAction::ReadForks(spec_block_sentinel()),
        moves.last().action->Ready_0.wf(),
        moves.last().action->Ready_0@ == StorageView::fresh(dir),
{
    let n = moves.len() as int;
    assert(setup_move_at(dir, moves, 0));
    assert(setup_move_at(dir, moves, n - 1));
    assert(setup_move_at(dir, moves, n - 2));
    assert(setup_move_at(dir, moves, n - 3));
    if n > 3 {
        assert(setup_move_at(dir, moves, n - 4));
        if n > 4 {
            assert(setup_move_at(dir, moves, n - 5));
        }
    }
}

/// Storage is not opened in a directory that holds partial writes.
pub proof fn law_setup_refuses_partial_writes(dir: Seq<char>, moves: Seq<SetupMove>, i: int)
    requires
        setup_run(dir, moves),
        0 <= i < moves.len(),
        moves[i].event matches SetupEvent::TmpScanned(Ok(count)) && count > 0,
    ensures
        moves.len() == i + 1,
        moves.last().action == SetupAction::Fail(Error::PartialWriteError),
{
    assert(setup_move_at(dir, moves, i));
    if i + 1 < moves.len() {
        assert(setup_move_at(dir, moves, i + 1));
    }
}

/// One step on the way to empty the storage.
pub struct FormatMove {
    pub before: StorageView,
    pub event: FormatEvent,
    pub after: StorageView,
    pub action: FormatAction,
}

/// Whether an event reports what came of an action.
pub open spec fn format_answers(action: FormatAction, event: FormatEvent) -> bool {
    match action {
        FormatAction::RemoveDir => event is DirRemoved,
        FormatAction::CreateDir => event is DirCreated,
        FormatAction::ClearForks => false,
        FormatAction::Fail(_) => false,
    }
}

/// Whether one of some steps is one that emptying the storage allows, after the
/// one before it.
pub open spec fn format_move_at(moves: Seq<FormatMove>, i: int) -> bool {
    &&& format_step(moves[i].before, moves[i].event, moves[i].after, moves[i].action)
    &&& i > 0 ==> format_answers(moves[i - 1].action, moves[i].event) && moves[i].before == moves[i
        - 1].after
}

/// Whether some steps are a run, from the request on, on which every event
/// reports what came of the action before it.
pub open spec fn format_run(moves: Seq<FormatMove>) -> bool {
    &&& moves.len() > 0
    &&& moves[0].event is Requested
    &&& forall|i: int| 0 <= i < moves.len() ==> #[trigger] format_move_at(moves, i)
}

/// Storage is emptied only if it may be written, and once its directory was
/// removed and made anew; it then has no trie in RAM and no current block. If
/// it is not emptied, its state is as it was.
pub proof fn law_format_empties_or_keeps(moves: Seq<FormatMove>)
    requires
        format_run(moves),
    ensures
        moves.len() <= 3,
        moves.last().action is ClearForks ==> {
            &&& moves.len() == 3
            &&& !moves[0].before.readonly
            &&& moves[1].event->DirRemoved_0 is Ok
            &&& moves.last().after == moves[0].before.emptied()
        },
        moves.last().action is Fail ==> moves.last().after == moves[0].before,
        moves[0].before.readonly ==> moves.last().action == FormatAction::Fail(
            Error::ReadOnlyError,
        ),
{
    assert(format_move_at(moves, 0));
    if moves.len() > 1 {
        assert(format_move_at(moves, 1));
    }
    if moves.len() > 2 {
        assert(format_move_at(moves, 2));
    }
    if moves.len() > 3 {
        assert(format_move_at(moves, 3));
    }
}

/// One step on the way to open a block.
pub struct OpenMove {
    pub before: StorageView,
    pub event: OpenEvent,
    pub after: StorageView,
    pub action: OpenAction,
}

/// Whether an event reports what came of an action.
pub open spec fn open_answers(action: OpenAction, event: OpenEvent) -> bool {
    match action {
        OpenAction::OpenFile { path, fork_ptr } => event is FileOpened && event->fork_ptr
            == fork_ptr,
        OpenAction::Finish(_) => false,
    }
}

/// Whether one of some steps is one that opening a block allows, after the one before it.
pub open spec fn open_move_at(
    bhh: BlockHeaderHash,
    readwrite: bool,
    moves: Seq<OpenMove>,
    i: int,
) -> bool {
    &&& open_step(
        moves[i].before,
        bhh,
        readwrite,
        moves[i].event,
        moves[i].after,
        moves[i].action,
    )
    &&& i > 0 ==> open_answers(moves[i - 1].action, moves[i].event) && moves[i].before == moves[i
        - 1].after
}

/// Whether some steps are a run, from the request on, on which every event
/// reports what came of the action before it.
pub open spec fn open_run(bhh: BlockHeaderHash, readwrite: bool, moves: Seq<OpenMove>) -> bool {
    &&& moves.len() > 0
    &&& moves[0].event is Requested
    &&& forall|i: int| 0 <= i < moves.len() ==> #[trigger] open_move_at(bhh, readwrite, moves, i)
}

/// A block that was opened is the current one, known to be where the fork table
/// has it, and may be written if that was asked for; its file is open unless
/// its trie is in RAM. If it was not opened, nothing has changed.
pub proof fn law_open_makes_current_or_keeps(
    bhh: BlockHeaderHash,
    readwrite: bool,
    moves: Seq<OpenMove>,
)
    requires
        open_run(bhh, readwrite, moves),
    ensures
        moves.len() <= 2,
        moves.last().action == OpenAction::Finish(Ok(())) ==> {
            &&& moves[0].event->Requested_0 is Ok
            &&& moves.last().after == moves[0].before.opened(
                bhh,
                moves[0].before.last_extended != Some(bhh),
                moves[0].event->Requested_0->Ok_0,
                readwrite,
            )
        },
        moves.last().action matches OpenAction::Finish(Err(_)) ==> moves.last().after
            == moves[0].before,
{
    assert(open_move_at(bhh, readwrite, moves, 0));
    if moves.len() > 1 {
        assert(open_move_at(bhh, readwrite, moves, 1));
    }
    if moves.len() > 2 {
        assert(open_move_at(bhh, readwrite, moves, 2));
    }
}

/// One step on the way to an ancestor.
pub struct WalkMove {
    pub before: StorageView,
    pub event: WalkEvent,
    pub after: StorageView,
    pub action: WalkAction,
}

/// Whether an event reports what came of an action.
pub open spec fn walk_answers(action: WalkAction, event: WalkEvent) -> bool {
    match action {
        WalkAction::FindPtr(_) => event is PtrFound,
        WalkAction::WalkBack { .. } => event is Walked,
        WalkAction::Finish(_) => false,
    }
}

/// Whether one of some steps is one that a walk back allows, after the one before it.
pub open spec fn walk_move_at(back_block: u32, moves: Seq<WalkMove>, i: int) -> bool {
    &&& walk_step(moves[i].before, back_block, moves[i].event, moves[i].after, moves[i].action)
    &&& i > 0 ==> walk_answers(moves[i - 1].action, moves[i].event) && moves[i].before == moves[i
        - 1].after
}

/// Whether some steps are a run, from the request on, on which every event
/// reports what came of the action before it.
pub open spec fn walk_run(back_block: u32, moves: Seq<WalkMove>) -> bool {
    &&& moves.len() > 0
    &&& moves[0].event is Requested
    &&& forall|i: int| 0 <= i < moves.len() ==> #[trigger] walk_move_at(back_block, moves, i)
}

/// The ancestor that is found is the block to which the fork table leads back
/// from the current one, by as many blocks as was asked for, and is a block,
/// not the sentinel. All that changes is that the current block's spot in the
/// fork table is known afterwards.
pub proof fn law_walk_finds_a_block(back_block: u32, moves: Seq<WalkMove>)
    requires
        walk_run(back_block, moves),
    ensures
        moves.len() <= 3,
        moves.last().after == (StorageView {
            fork_ptr: moves.last().after.fork_ptr,
            ..moves[0].before
        }),
        moves[0].before.fork_ptr is Some ==> moves.last().after == moves[0].before,
        moves.last().action matches WalkAction::Finish(Ok(bhh)) ==> {
            &&& bhh != spec_block_sentinel()
            &&& moves.len() >= 2
            &&& moves.last().event->Walked_0 is Ok
            &&& moves.last().event->Walked_0->Ok_0 == bhh
            &&& moves.last().after.fork_ptr is Some
            &&& moves[moves.len() - 2].action == (WalkAction::WalkBack {
                fork_ptr: moves.last().after.fork_ptr->0,
                from: moves[0].before.cur_block,
                back_block,
            })
        },
{
    assert(walk_move_at(back_block, moves, 0));
    if moves.len() > 1 {
        assert(walk_move_at(back_block, moves, 1));
    }
    if moves.len() > 2 {
        assert(walk_move_at(back_block, moves, 2));
    }
    if moves.len() > 3 {
        assert(walk_move_at(back_block, moves, 3));
    }
}

/// A trie that was saved is found again: the file that is opened for its block
/// is the one that the flush put into place, and its root is where the root of
/// a trie in a file is looked for.
pub proof fn law_saved_trie_is_found(
    saving: Seq<FlushMove>,
    opening: Seq<OpenMove>,
    bhh: BlockHeaderHash,
    readwrite: bool,
)
    requires
        flush_run(saving),
        saving[0].before.last_extended == Some(bhh),
        saving.last().action == FlushAction::Finish(Ok(())),
        open_run(bhh, readwrite, opening),
        opening[0].before == saving.last().after,
        opening.last().action == OpenAction::Finish(Ok(())),
    ensures
        opening[0].action is OpenFile,
        opening[0].action->path@ == saving[3].action->to@,
        opening.last().after.file_open,
        !opening.last().after.in_ram(),
        saving[2].action->Write_0.entries@.len() > 0,
        saving[2].action->Write_0.entries@[0].at == BLOCK_HEADER_HASH_ENCODED_SIZE,
        saving[2].action->Write_0.entries@[0].hash == saving[0].before.trie->0.nodes[0].hash,
{
    law_flush_saves_the_trie(saving, bhh);
    law_flush_releases_the_trie(saving);
    law_open_makes_current_or_keeps(bhh, readwrite, opening);
    assert(open_move_at(bhh, readwrite, opening, 0));
    let plan = saving[2].action->Write_0;
    let nodes = saving[0].before.trie->0.nodes;
    lemma_order_grows(nodes, 0, plan.entries@.len());
    assert(visit_order(nodes, 0)[0] == root_ptr());
    assert(visit_order(nodes, plan.entries@.len())[0] == root_ptr());
    assert(plan.entries@[0].at == write_offset(nodes, visit_order(nodes, plan.entries@.len()), 0));
}

/// Once the current block has been flushed it is still the current one, and may
/// be written as before, but is no longer in RAM: its root is looked for where
/// the root of a file is, and there is nothing to read nodes from.
pub proof fn law_flushed_block_is_unread(storage: TrieFileStorage, moves: Seq<FlushMove>)
    requires
        storage.wf(),
        flush_run(moves),
        moves[0].before == storage@,
        storage@.in_ram(),
    ensures
        moves.last().after.cur_block == storage@.cur_block,
        moves.last().after.readonly == storage@.readonly,
        moves.last().after.root_place() == BLOCK_HEADER_HASH_ENCODED_SIZE,
        moves.last().after.unread(),
{
    law_flush_releases_the_trie(moves);
    storage.law_trie_in_ram_is_the_last();
}

/// Where there is nothing to read nodes from, every read gives `NotFoundError`
/// and adds nothing to the bytes that were read before.
pub proof fn law_unread_block_has_no_nodes(
    storage: StorageView,
    ptr: TriePtr,
    node: Result<Served<(TrieNodeType, TrieHash)>, Error>,
    before: Seq<u8>,
    after: Seq<u8>,
    hash: Result<Served<()>, Error>,
)
    requires
        storage.unread(),
    ensures
        storage.reads_node(ptr, node) <==> node == Err::<
            Served<(TrieNodeType, TrieHash)>,
            Error,
        >(Error::NotFoundError),
        storage.reads_hash(ptr, before, after, hash) <==> hash == Err::<Served<()>, Error>(
            Error::NotFoundError,
        ) && after == before,
{
}

/// Reading, walking back, flushing, emptying the storage, and an attempt to
/// open a block that fails leave nothing to read nodes from where there was nothing.
pub proof fn law_block_stays_unread(
    storage: StorageView,
    ptr: TriePtr,
    back_block: u32,
    walking: Seq<WalkMove>,
    flushing: Seq<FlushMove>,
    bhh: BlockHeaderHash,
    readwrite: bool,
    opening: Seq<OpenMove>,
)
    requires
        storage.unread(),
    ensures
        storage.after_node_read(ptr).unread(),
        storage.emptied().unread(),
        walk_run(back_block, walking) && walking[0].before == storage
            ==> walking.last().after.unread(),
        flush_run(flushing) && flushing[0].before == storage ==> flushing.last().after.unread(),
        open_run(bhh, readwrite, opening) && opening[0].before == storage && (
        opening.last().action matches OpenAction::Finish(Err(_)))
            ==> opening.last().after.unread(),
{
    if walk_run(back_block, walking) {
        law_walk_finds_a_block(back_block, walking);
    }
    if flush_run(flushing) {
        law_flush_releases_the_trie(flushing);
    }
    if open_run(bhh, readwrite, opening) {
        law_open_makes_current_or_keeps(bhh, readwrite, opening);
    }
}

/// Success that says no more is all of one kind.
proof fn lemma_unit(outcome: Result<(), Error>)
    requires
        outcome is Ok,
    ensures
        outcome == Ok::<(), Error>(()),
{
    assert(outcome->Ok_0 == ());
}

/// What a run that adds a block leaves: the block is the current one, may be
/// written, and has an empty trie in RAM. No file is open, and no spot in the
/// fork table is remembered: that of the block that was current before is not
/// the new one's. The directory and the counts of the storage are as they were.
pub proof fn law_added_block_starts_afresh(bhh: BlockHeaderHash, moves: Seq<ExtendMove>)
    requires
        extend_run(bhh, moves),
        moves.last().action == ExtendAction::Finish(Ok(())),
    ensures
        ({
            let before = moves[0].before;
            let after = moves.last().after;
            let trie = after.trie->0;
            &&& after.cur_block == bhh
            &&& after.fork_ptr is None
            &&& !after.file_open
            &&& !after.readonly
            &&& after.last_extended == Some(bhh)
            &&& after.trie is Some
            &&& trie.nodes.len() == 0
            &&& trie.block_header == bhh
            &&& !trie.readonly
            &&& trie.total_bytes == 0
            &&& trie.stats.read_count == 0
            &&& trie.stats.read_backptr_count == 0
            &&& trie.stats.read_node_count == 0
            &&& trie.stats.read_leaf_count == 0
            &&& trie.stats.write_count == 0
            &&& trie.stats.write_node_count == 0
            &&& trie.stats.write_leaf_count == 0
            &&& after.dir == before.dir
            &&& after.stats == before.stats
        }),
{
    law_extend_adds_the_block(bhh, moves);
}

/// What a run that fails to add a block leaves: the current block, its spot in
/// the fork table and its open file are as they were. If it got as far as to
/// flush, the storage may be written and has no trie in RAM; else nothing has changed.
pub proof fn law_block_not_added_changes_little(bhh: BlockHeaderHash, moves: Seq<ExtendMove>)
    requires
        extend_run(bhh, moves),
        moves.last().action matches ExtendAction::Finish(Err(_)),
    ensures
        ({
            let before = moves[0].before;
            let after = moves.last().after;
            &&& after.cur_block == before.cur_block
            &&& after.fork_ptr == before.fork_ptr
            &&& after.file_open == before.file_open
            &&& after.dir == before.dir
            &&& after.stats == before.stats
            &&& moves.len() == 1 ==> after.readonly == before.readonly && after.last_extended
                == before.last_extended && after.trie == before.trie
            &&& moves.len() > 1 ==> !after.readonly && after.last_extended is None && after.trie
                is None
        }),
{
    law_extend_failure_keeps_the_block(bhh, moves);
}

/// Adding a block fails only for a reason, which is the last thing that was
/// reported: the fork table lacks the current block or has the new one, a file
/// is in the way, or something that was tried failed. So a run on which all goes
/// well adds the block.
pub proof fn law_extend_fails_for_a_reason(
    bhh: BlockHeaderHash,
    moves: Seq<ExtendMove>,
    error: Error,
)
    requires
        extend_run(bhh, moves),
        moves.last().action == ExtendAction::Finish(Err(error)),
    ensures
        match moves.last().event {
            ExtendEvent::Requested(forks) => if forks.size > 0 && !forks.has_current {
                &&& error is CorruptionError
                &&& error->CorruptionError_0@ == "Current block "@ + hex_of(
                    moves[0].before.cur_block.0@,
                ) + " not in fork table"@
            } else {
                forks.has_block && error == Error::ExistsError
            },
            ExtendEvent::Flushed(outcome) => outcome == Err::<(), Error>(error),
            ExtendEvent::PathChecked(found) | ExtendEvent::TmpPathChecked(found) => match found {
                Ok(_) => error == Error::ExistsError,
                Err(e) => !e.not_found && error == Error::IOError(e),
            },
            ExtendEvent::DirCreated(outcome) => outcome is Err && error == Error::IOError(
                outcome->Err_0,
            ),
            ExtendEvent::TmpOpened(outcome) => outcome is Err && error == if outcome->Err_0.not_found {
                Error::NotFoundError
            } else {
                Error::IOError(outcome->Err_0)
            },
            ExtendEvent::ParentWritten(outcome) => outcome == Err::<(), Error>(error),
            ExtendEvent::ForksExtended(outcome) => outcome == Err::<(), Error>(error),
        },
{
    let last = moves.len() - 1;
    assert(extend_move_at(bhh, moves, last));
    lemma_extend_order(bhh, moves, last);
}

/// What is asked for on the way to add a block: a flush first; then a look at
/// the path of its file and at that path with `.tmp` behind it, where no file may
/// be; then the directory of both, and the file at the second; and then the hash
/// of the current block, as the parent, in the file and in the fork table.
pub proof fn law_extend_asks_in_order(bhh: BlockHeaderHash, moves: Seq<ExtendMove>, i: int)
    requires
        extend_run(bhh, moves),
        0 <= i < moves.len(),
        !(moves[i].action is Finish),
    ensures
        ({
            let before = moves[0].before;
            let path = spec_block_path(before.dir, bhh);
            match moves[i].action {
                ExtendAction::Flush => i == 0,
                ExtendAction::CheckPath(p) => i == 1 && p@ == path,
                ExtendAction::CheckTmpPath(p) => i == 2 && p@ == path + seq!['.', 't', 'm', 'p'],
                ExtendAction::CreateDir(p) => i == 3 && p@ == path.take(path.len() - 65),
                ExtendAction::OpenTmp(p) => i == 4 && p@ == path + seq!['.', 't', 'm', 'p'],
                ExtendAction::WriteParent(parent) => i == 5 && parent == before.cur_block,
                ExtendAction::ExtendForks { parent, block } => i == 6 && parent == before.cur_block
                    && block == bhh,
                ExtendAction::Finish(_) => false,
            }
        }),
{
    assert(extend_move_at(bhh, moves, i));
    lemma_extend_order(bhh, moves, i);
    law_block_path_parts(moves[0].before.dir, bhh);
}

/// What a run that opens a block leaves: the block is the current one, and its
/// spot in the fork table the one that was found. The storage may be written
/// exactly if that was asked for, whatever was open before. The block's file is
/// open, unless its trie is in RAM. All else is as it was.
pub proof fn law_open_decides_every_field(
    bhh: BlockHeaderHash,
    readwrite: bool,
    moves: Seq<OpenMove>,
)
    requires
        open_run(bhh, readwrite, moves),
        moves.last().action == OpenAction::Finish(Ok(())),
    ensures
        ({
            let before = moves[0].before;
            let after = moves.last().after;
            &&& after.cur_block == bhh
            &&& after.readonly == !readwrite
            &&& moves[0].event->Requested_0 == Ok::<TrieForkPtr, Error>(after.fork_ptr->0)
            &&& after.fork_ptr is Some
            &&& after.file_open <==> before.last_extended != Some(bhh)
            &&& after.last_extended == before.last_extended
            &&& after.trie == before.trie
            &&& after.dir == before.dir
            &&& after.stats == before.stats
        }),
{
    law_open_makes_current_or_keeps(bhh, readwrite, moves);
}

/// Opening a block ends well exactly if the fork table has the block, and its
/// trie is in RAM or its file, at its path, can be opened. It fails with what
/// the fork table said, or with what became of the file.
pub proof fn law_open_fails_for_a_reason(
    bhh: BlockHeaderHash,
    readwrite: bool,
    moves: Seq<OpenMove>,
)
    requires
        open_run(bhh, readwrite, moves),
        moves.last().action is Finish,
    ensures
        ({
            let outcome = moves.last().action->Finish_0;
            match moves[0].event->Requested_0 {
                Err(e) => moves.len() == 1 && outcome == Err::<(), Error>(e),
                Ok(spot) => if moves[0].before.last_extended == Some(bhh) {
                    moves.len() == 1 && outcome is Ok
                } else {
                    &&& moves.len() == 2
                    &&& moves[0].action is OpenFile
                    &&& moves[0].action->path@ == spec_block_path(moves[0].before.dir, bhh)
                    &&& match moves[1].event->outcome {
                        Ok(_) => outcome is Ok,
                        Err(e) => outcome == Err::<(), Error>(
                            if e.not_found {
                                Error::NotFoundError
                            } else {
                                Error::IOError(e)
                            },
                        ),
                    }
                },
            }
        }),
{
    law_open_makes_current_or_keeps(bhh, readwrite, moves);
    assert(open_move_at(bhh, readwrite, moves, 0));
    if moves.len() > 1 {
        assert(open_move_at(bhh, readwrite, moves, 1));
    }
}

/// A walk back succeeds whenever it can, and says what the fork table says; the
/// law holds of a run that is over and of one that is under way. It is the same for a block that may be written and one that may not. Where the
/// current block's spot is not remembered it is looked up, and that fails only if
/// the fork table fails; then the fork table is walked back from the spot, and
/// the block that it gives is the answer, unless it is the sentinel, all of whose
/// bytes are 255.
pub proof fn law_walk_succeeds_whenever_it_can(back_block: u32, moves: Seq<WalkMove>)
    requires
        walk_run(back_block, moves),
    ensures
        ({
            let before = moves[0].before;
            let last = moves.last();
            match last.event {
                WalkEvent::Requested => if before.fork_ptr is Some {
                    last.action == (WalkAction::WalkBack {
                        fork_ptr: before.fork_ptr->0,
                        from: before.cur_block,
                        back_block,
                    })
                } else {
                    last.action == WalkAction::FindPtr(before.cur_block)
                },
                WalkEvent::PtrFound(Ok(spot)) => before.fork_ptr is None && last.action == (
                WalkAction::WalkBack { fork_ptr: spot, from: before.cur_block, back_block }),
                WalkEvent::PtrFound(Err(e)) => before.fork_ptr is None && last.action
                    == WalkAction::Finish(Err(e)),
                WalkEvent::Walked(Ok(bhh)) => if forall|k: int|
                    0 <= k < 32 ==> #[trigger] bhh.0@[k] == 255 {
                    last.action == WalkAction::Finish(Err(Error::NotFoundError))
                } else {
                    last.action == WalkAction::Finish(Ok(bhh))
                },
                WalkEvent::Walked(Err(e)) => last.action == WalkAction::Finish(Err(e)),
            }
        }),
{
    law_walk_finds_a_block(back_block, moves);
    assert(walk_move_at(back_block, moves, 0));
    if moves.len() > 1 {
        assert(walk_move_at(back_block, moves, 1));
    }
    if moves.len() > 2 {
        assert(walk_move_at(back_block, moves, 2));
    }
    if moves.last().event is Walked && moves.last().event->Walked_0 is Ok {
        law_sentinel_is_all_ones(moves.last().event->Walked_0->Ok_0);
    }
}

/// A walk back changes nothing but what is remembered of the current block's
/// spot, and that only from nothing to what the fork table gave for it.
pub proof fn law_walk_changes_only_the_spot(back_block: u32, moves: Seq<WalkMove>)
    requires
        walk_run(back_block, moves),
    ensures
        ({
            let before = moves[0].before;
            let after = moves.last().after;
            &&& after.cur_block == before.cur_block
            &&& after.readonly == before.readonly
            &&& after.file_open == before.file_open
            &&& after.last_extended == before.last_extended
            &&& after.trie == before.trie
            &&& after.dir == before.dir
            &&& after.stats == before.stats
            &&& before.fork_ptr is Some ==> after.fork_ptr == before.fork_ptr
            &&& before.fork_ptr is None && after.fork_ptr is Some ==> moves.len() > 1
                && moves[1].event->PtrFound_0 == Ok::<TrieForkPtr, Error>(after.fork_ptr->0)
        }),
{
    law_walk_finds_a_block(back_block, moves);
    assert(walk_move_at(back_block, moves, 0));
    if moves.len() > 1 {
        assert(walk_move_at(back_block, moves, 1));
    }
    if moves.len() > 2 {
        assert(walk_move_at(back_block, moves, 2));
    }
}

/// Whether the spot that is remembered, if there is one, is the one that the
/// fork table has for the current block.
pub open spec fn spot_is_current(
    storage: StorageView,
    table: spec_fn(BlockHeaderHash) -> Option<TrieForkPtr>,
) -> bool {
    storage.fork_ptr is Some ==> table(storage.cur_block) == storage.fork_ptr
}

/// The spot that is remembered is always the one that the fork table has for
/// the current block: opening a block and walking back keep it so, if what is
/// looked up is what the fork table has, and adding a block, flushing and
/// emptying the storage keep it so in any case.
#[verifier::spinoff_prover]
#[verifier::rlimit(40)]
pub proof fn law_remembered_spot_is_the_current_blocks(
    storage: StorageView,
    table: spec_fn(BlockHeaderHash) -> Option<TrieForkPtr>,
    bhh: BlockHeaderHash,
    readwrite: bool,
    back_block: u32,
    opening: Seq<OpenMove>,
    walking: Seq<WalkMove>,
    extending: Seq<ExtendMove>,
    flushing: Seq<FlushMove>,
    formatting: Seq<FormatMove>,
)
    requires
        spot_is_current(storage, table),
    ensures
        open_run(bhh, readwrite, opening) && opening[0].before == storage && (
        opening.last().action is Finish) && (opening[0].event->Requested_0 is Ok ==> table(bhh)
            == Some(opening[0].event->Requested_0->Ok_0)) ==> spot_is_current(
            opening.last().after,
            table,
        ),
        walk_run(back_block, walking) && walking[0].before == storage && (walking.len() > 1
            && walking[1].event is PtrFound && walking[1].event->PtrFound_0 is Ok ==> table(
            storage.cur_block,
        ) == Some(walking[1].event->PtrFound_0->Ok_0)) ==> spot_is_current(
            walking.last().after,
            table,
        ),
        extend_run(bhh, extending) && extending[0].before == storage && (
        extending.last().action is Finish) ==> spot_is_current(extending.last().after, table),
        flush_run(flushing) && flushing[0].before == storage ==> spot_is_current(
            flushing.last().after,
            table,
        ),
        format_run(formatting) && formatting[0].before == storage ==> spot_is_current(
            formatting.last().after,
            table,
        ),
{
    if open_run(bhh, readwrite, opening) {
        law_open_makes_current_or_keeps(bhh, readwrite, opening);
        if opening.last().action is Finish && opening.last().action->Finish_0 is Ok {
            lemma_unit(opening.last().action->Finish_0);
        }
    }
    if walk_run(back_block, walking) {
        law_walk_changes_only_the_spot(back_block, walking);
        law_walk_succeeds_whenever_it_can(back_block, walking);
        if walking.len() > 1 {
            assert(walk_move_at(back_block, walking, 0));
            assert(walk_move_at(back_block, walking, 1));
        }
    }
    if extend_run(bhh, extending) && extending.last().action is Finish {
        if extending.last().action->Finish_0 is Ok {
            lemma_unit(extending.last().action->Finish_0);
            law_added_block_starts_afresh(bhh, extending);
        } else {
            law_block_not_added_changes_little(bhh, extending);
        }
    }
    if flush_run(flushing) {
        law_flush_releases_the_trie(flushing);
    }
    if format_run(formatting) {
        law_format_empties_or_keeps(formatting);
        assert(format_move_at(formatting, 0));
        if formatting.len() > 1 {
            assert(format_move_at(formatting, 1));
        }
        if formatting.len() > 2 {
            assert(format_move_at(formatting, 2));
        }
    }
}

/// A flush takes the trie out of RAM, and leaves every other field of the
/// storage as it was.
pub proof fn law_flush_changes_only_the_trie(moves: Seq<FlushMove>)
    requires
        flush_run(moves),
    ensures
        ({
            let before = moves[0].before;
            let after = moves.last().after;
            &&& after.last_extended is None
            &&& after.trie is None
            &&& after.cur_block == before.cur_block
            &&& after.readonly == before.readonly
            &&& after.file_open == before.file_open
            &&& after.fork_ptr == before.fork_ptr
            &&& after.dir == before.dir
            &&& after.stats == before.stats
        }),
{
    law_flush_releases_the_trie(moves);
}

/// What is asked for on the way to flush a trie: the parent of its block; the
/// file at the block's path with `.tmp` behind it; that the trie be written to it,
/// and the file renamed to the block's path. At the end, and at once if there is
/// no trie, the open file of the current block is flushed, exactly if the storage
/// may be written and there is one.
#[verifier::spinoff_prover]
#[verifier::rlimit(40)]
pub proof fn law_flush_asks_in_order(moves: Seq<FlushMove>, i: int)
    requires
        flush_run(moves),
        0 <= i < moves.len(),
        !(moves[i].action is Finish),
    ensures
        ({
            let before = moves[0].before;
            let bhh = before.last_extended->0;
            let path = spec_block_path(before.dir, bhh);
            match moves[i].action {
                FlushAction::FindParent(b) => i == 0 && before.last_extended == Some(b),
                FlushAction::OpenTmp(p) => i == 1 && before.last_extended is Some && p@ == path
                    + seq!['.', 't', 'm', 'p'],
                FlushAction::Write(plan) => i == 2 && before.last_extended is Some
                    && plan.lays_out(before.trie->0.nodes, plan.parent) && plan.parent
                    == parent_to_name(moves[1].event),
                FlushAction::Place { from, to } => i == 3 && before.last_extended is Some && from@
                    == path + seq!['.', 't', 'm', 'p'] && to@ == path,
                FlushAction::FlushCurrent => !before.readonly && before.file_open && (
                before.last_extended is Some && i == 4 || before.last_extended is None && i == 0),
                FlushAction::Finish(_) => false,
            }
        }),
{
    lemma_flush_place(moves, i);
    assert(flush_move_at(moves, i));
    if i > 0 {
        lemma_flush_state(moves, i - 1);
    }
    if moves[0].before.last_extended is Some {
        let before = moves[0].before;
        let bhh = before.last_extended->0;
        assert(spec_block_path_tmp(before.dir, bhh) == spec_block_path(before.dir, bhh) + seq![
            '.',
            't',
            'm',
            'p',
        ]) by {
            law_block_path_parts(before.dir, bhh);
        }
        lemma_flush_pending(moves, i);
    }
}

/// Each event of a run that saves a trie comes at its place; a run without a
/// trie has no event but the request and the flush of the open file.
proof fn lemma_flush_place(moves: Seq<FlushMove>, i: int)
    requires
        flush_run(moves),
        0 <= i < moves.len(),
    ensures
        moves[0].before.last_extended is Some ==> flush_rank(moves[i].event) == i,
        moves[0].before.last_extended is None ==> i == 0 || i == 1 && moves[1].event
            is CurrentFlushed,
    decreases i,
{
    assert(flush_move_at(moves, i));
    if i > 0 {
        lemma_flush_place(moves, i - 1);
        assert(flush_move_at(moves, i - 1));
    }
}

/// What is kept of a flush that is under way.
proof fn lemma_flush_pending(moves: Seq<FlushMove>, i: int)
    requires
        flush_run(moves),
        0 <= i < moves.len(),
        moves[0].before.last_extended is Some,
    ensures
        ({
            let before = moves[0].before;
            let bhh = before.last_extended->0;
            1 <= i <= 3 ==> {
                &&& moves[i].pending is Some
                &&& moves[i].pending->0.tmp_path == spec_block_path_tmp(before.dir, bhh)
                &&& moves[i].pending->0.path == spec_block_path(before.dir, bhh)
                &&& moves[i].pending->0.trie.nodes == before.trie->0.nodes
                &&& i >= 2 ==> moves[i].pending->0.parent == parent_to_name(moves[1].event)
            }
        }),
    decreases i,
{
    assert(flush_move_at(moves, i));
    if i > 0 {
        lemma_flush_pending(moves, i - 1);
        lemma_flush_place(moves, i - 1);
        lemma_flush_place(moves, i);
        assert(flush_move_at(moves, i - 1));
    }
}

/// A flush fails only for a reason, which is the last thing that was reported:
/// the fork table gave no parent and does not know the block either, the trie has
/// a pointer that leads nowhere, or something that was tried failed. So a run on
/// which all goes well ends well.
#[verifier::spinoff_prover]
#[verifier::rlimit(40)]
pub proof fn law_flush_fails_for_a_reason(moves: Seq<FlushMove>, error: Error)
    requires
        flush_run(moves),
        moves.last().action == FlushAction::Finish(Err(error)),
    ensures
        match moves.last().event {
            FlushEvent::Requested => false,
            FlushEvent::ParentFound { parent, known } => !known && parent == Err::<
                BlockHeaderHash,
                Error,
            >(error),
            FlushEvent::TmpOpened => error == Error::NotFoundError && !sound(
                moves[0].before.trie->0.nodes,
            ),
            FlushEvent::Written(outcome) => outcome == Err::<(), Error>(error),
            FlushEvent::Placed => false,
            FlushEvent::CurrentFlushed(outcome) => outcome is Err && error == Error::IOError(
                outcome->Err_0,
            ),
        },
{
    let last = moves.len() - 1;
    assert(flush_move_at(moves, 0));
    assert(flush_move_at(moves, last));
    lemma_flush_place(moves, last);
    if moves[0].before.last_extended is Some {
        lemma_flush_pending(moves, last);
    }
}

/// The file of a block names as its parent the block that the fork table gives.
/// Only if it gives none, for a block that it holds, is it the sentinel, all of
/// whose bytes are 255.
pub proof fn law_file_names_the_parent(moves: Seq<FlushMove>)
    requires
        flush_run(moves),
        moves.len() > 2,
        moves[2].action is Write,
    ensures
        match moves[1].event->parent {
            Ok(bhh) => moves[2].action->Write_0.parent == bhh,
            Err(_) => moves[1].event->known && forall|k: int|
                0 <= k < 32 ==> #[trigger] moves[2].action->Write_0.parent.0@[k] == 255,
        },
{
    law_flush_asks_in_order(moves, 2);
    assert(flush_move_at(moves, 0));
    assert(flush_move_at(moves, 1));
    assert(flush_move_at(moves, 2));
    law_sentinel_is_all_ones(moves[2].action->Write_0.parent);
}

/// Opening the storage fails only for a reason, which is the last thing that was
/// reported: what is there is no directory, it cannot be looked at or made, it
/// holds partial writes, or its files cannot be read.
pub proof fn law_setup_fails_for_a_reason(dir: Seq<char>, moves: Seq<SetupMove>, error: Error)
    requires
        setup_run(dir, moves),
        moves.last().action == SetupAction::Fail(error),
    ensures
        match moves.last().event {
            SetupEvent::DirChecked(found) => match found {
                Ok(is_dir) => !is_dir && error == Error::NotDirectoryError,
                Err(e) => !e.not_found && error == Error::IOError(e),
            },
            SetupEvent::DirCreated(outcome) => outcome is Err && error == Error::IOError(
                outcome->Err_0,
            ),
            SetupEvent::TmpScanned(found) => match found {
                Ok(count) => count > 0 && error == Error::PartialWriteError,
                Err(e) => error == e,
            },
            SetupEvent::ForksRead(outcome) => outcome == Err::<(), Error>(error),
        },
{
    assert(setup_move_at(dir, moves, moves.len() - 1));
}

/// What is asked for on the way to open the storage: the directory is made
/// exactly if it was not found; then it is searched for partial writes; then the
/// fork table is made, with the sentinel, all of whose bytes are 255, at its root.
pub proof fn law_setup_asks_in_order(dir: Seq<char>, moves: Seq<SetupMove>, i: int)
    requires
        setup_run(dir, moves),
        0 <= i < moves.len(),
    ensures
        match moves[i].action {
            SetupAction::CreateDir => i == 0 && moves[0].event->DirChecked_0 is Err
                && moves[0].event->DirChecked_0->Err_0.not_found,
            SetupAction::ScanTmp => i == 0 && moves[0].event->DirChecked_0 is Ok || i == 1
                && moves[0].action is CreateDir,
            SetupAction::ReadForks(root) => i > 0 && moves[i - 1].action is ScanTmp && forall|
                k: int,
            |
                0 <= k < 32 ==> #[trigger] root.0@[k] == 255,
            SetupAction::Ready(storage) => i > 0 && moves[i - 1].action is ReadForks,
            SetupAction::Fail(_) => moves.len() == i + 1,
        },
{
    assert(setup_move_at(dir, moves, i));
    assert(setup_move_at(dir, moves, 0));
    if i > 0 {
        assert(setup_move_at(dir, moves, i - 1));
        if i > 1 {
            assert(setup_move_at(dir, moves, i - 2));
        }
    }
    if i + 1 < moves.len() {
        assert(setup_move_at(dir, moves, i + 1));
    }
    if moves[i].action is ReadForks {
        law_sentinel_is_all_ones(moves[i].action->ReadForks_0);
    }
}

/// Storage that was just opened: it may be written, its current block is the
/// sentinel, all of whose bytes are 255, it has no trie in RAM and no open file,
/// no spot in the fork table is remembered, and nothing has been counted.
pub proof fn law_new_storage_is_empty(dir: Seq<char>, moves: Seq<SetupMove>)
    requires
        setup_run(dir, moves),
        moves.last().action is Ready,
    ensures
        ({
            let storage = moves.last().action->Ready_0@;
            &&& storage.dir == dir
            &&& !storage.readonly
            &&& storage.last_extended is None
            &&& storage.trie is None
            &&& forall|k: int| 0 <= k < 32 ==> #[trigger] storage.cur_block.0@[k] == 255
            &&& !storage.file_open
            &&& storage.fork_ptr is None
            &&& storage.stats.read_count == 0
            &&& storage.stats.read_backptr_count == 0
            &&& storage.stats.read_node_count == 0
            &&& storage.stats.read_leaf_count == 0
            &&& storage.stats.write_count == 0
            &&& storage.stats.write_node_count == 0
            &&& storage.stats.write_leaf_count == 0
        }),
{
    law_setup_needs_a_clean_directory(dir, moves);
    law_sentinel_is_all_ones(moves.last().action->Ready_0@.cur_block);
}

/// What emptying the storage leaves: no trie in RAM, no open file, no spot in the
/// fork table, and the sentinel, all of whose bytes are 255, as the current block.
/// The directory, the counts and whether the storage may be written are as they
/// were. It fails only for a reason, and then nothing has changed.
pub proof fn law_format_decides_every_field(moves: Seq<FormatMove>)
    requires
        format_run(moves),
    ensures
        ({
            let before = moves[0].before;
            let after = moves.last().after;
            match moves.last().action {
                FormatAction::ClearForks => {
                    &&& moves.len() == 3
                    &&& !before.readonly
                    &&& moves[1].event->DirRemoved_0 is Ok
                    &&& moves[2].event->DirCreated_0 is Ok
                    &&& forall|k: int| 0 <= k < 32 ==> #[trigger] after.cur_block.0@[k] == 255
                    &&& after.last_extended is None
                    &&& after.trie is None
                    &&& !after.file_open
                    &&& after.fork_ptr is None
                    &&& !after.readonly
                    &&& after.dir == before.dir
                    &&& after.stats == before.stats
                },
                FormatAction::Fail(error) => {
                    &&& after == before
                    &&& match moves.last().event {
                        FormatEvent::Requested => before.readonly && error == Error::ReadOnlyError,
                        FormatEvent::DirRemoved(outcome) => outcome is Err && error
                            == Error::IOError(outcome->Err_0),
                        FormatEvent::DirCreated(outcome) => outcome is Err && error
                            == Error::IOError(outcome->Err_0),
                    }
                },
                FormatAction::RemoveDir => moves.len() == 1 && after == before,
                FormatAction::CreateDir => moves.len() == 2 && after == before,
            }
        }),
{
    law_format_empties_or_keeps(moves);
    assert(format_move_at(moves, 0));
    if moves.len() > 1 {
        assert(format_move_at(moves, 1));
    }
    if moves.len() > 2 {
        assert(format_move_at(moves, 2));
    }
    law_sentinel_is_all_ones(moves.last().after.cur_block);
}

/// A flush is over only when the open file of the current block was flushed, if
/// the storage may be written and there is one.
pub proof fn law_flush_includes_the_open_file(moves: Seq<FlushMove>)
    requires
        flush_run(moves),
        moves.last().action == FlushAction::Finish(Ok(())),
        !moves[0].before.readonly,
        moves[0].before.file_open,
    ensures
        moves.last().event is CurrentFlushed,
        moves.last().event->CurrentFlushed_0 is Ok,
{
    let last = moves.len() - 1;
    assert(flush_move_at(moves, last));
    lemma_flush_state(moves, last);
    if last > 0 {
        lemma_flush_state(moves, last - 1);
    }
}

} // verus!
