//! Moving all of a buffer through a reader or a writer that may take several
//! calls for it. The caller makes the calls, and reports what came of each.
use vstd::prelude::*;
use crate::error::{Error, IoError};

verus! {

/// What to do next to fill or empty a buffer.
#[derive(Debug, PartialEq, Eq)]
pub enum TransferAction {
    /// Read into, or write from, the part of the buffer that starts here.
    Move { from: usize },
    /// So many bytes were moved, or the transfer failed.
    Finish(Result<usize, Error>),
}

/// The step that follows when `cnt` bytes of a buffer of `len` have been moved.
pub open spec fn transfer_next(len: usize, cnt: usize) -> TransferAction {
    if cnt < len {
        TransferAction::Move { from: cnt }
    } else {
        TransferAction::Finish(Ok(cnt))
    }
}

/// The first step to fill or empty a buffer of `len` bytes.
pub fn transfer_start(len: usize) -> (action: TransferAction)
    ensures
        action == transfer_next(len, 0),
{
    if 0 < len {
        TransferAction::Move { from: 0 }
    } else {
        TransferAction::Finish(Ok(0))
    }
}

/// The next step to fill a buffer of `len` bytes of which `cnt` have been read,
/// given what came of one more read: reading goes on until the buffer is full
/// or nothing more comes.
pub fn read_all(len: usize, cnt: usize, outcome: Result<usize, IoError>) -> (action: TransferAction)
    requires
        cnt <= len,
        outcome matches Ok(nr) ==> nr <= len - cnt,
    ensures
        action == match outcome {
            Ok(nr) => if nr == 0 {
                TransferAction::Finish(Ok(cnt))
            } else {
                transfer_next(len, (cnt + nr) as usize)
            },
            Err(e) => TransferAction::Finish(Err(Error::IOError(e))),
        },
{
    match outcome {
        Ok(nr) => {
            if nr == 0 {
                return TransferAction::Finish(Ok(cnt));
            }
            let total: usize = cnt + nr;
            if total < len {
                TransferAction::Move { from: total }
            } else {
                TransferAction::Finish(Ok(total))
            }
        },
        Err(e) => TransferAction::Finish(Err(Error::IOError(e))),
    }
}

/// The next step to empty a buffer of `len` bytes of which `cnt` have been
/// written, given what came of one more write: writing goes on until the whole
/// buffer is written.
pub fn write_all(len: usize, cnt: usize, outcome: Result<usize, IoError>) -> (action: TransferAction)
    requires
        cnt <= len,
        outcome matches Ok(nw) ==> nw <= len - cnt,
    ensures
        action == match outcome {
            Ok(nw) => transfer_next(len, (cnt + nw) as usize),
            Err(e) => TransferAction::Finish(Err(Error::IOError(e))),
        },
{
    match outcome {
        Ok(nw) => {
            let total: usize = cnt + nw;
            if total < len {
                TransferAction::Move { from: total }
            } else {
                TransferAction::Finish(Ok(total))
            }
        },
        Err(e) => TransferAction::Finish(Err(Error::IOError(e))),
    }
}

/// Writing is done only when the whole buffer was written, and goes on where it
/// left off until then.
pub proof fn law_write_all_leaves_nothing(len: usize, cnt: usize, nw: usize)
    requires
        cnt <= len,
        nw <= len - cnt,
    ensures
        match transfer_next(len, (cnt + nw) as usize) {
            TransferAction::Move { from } => from == cnt + nw && from < len,
            TransferAction::Finish(outcome) => outcome == Ok::<usize, Error>(len),
        },
{
}

/// A transfer goes on, where it left off, exactly as long as bytes are left, and
/// then says how many were moved.
pub proof fn law_transfer_goes_on_while_bytes_are_left(len: usize, cnt: usize)
    ensures
        transfer_next(len, cnt) is Move <==> cnt < len,
        transfer_next(len, cnt) is Move ==> transfer_next(len, cnt)->from == cnt,
        transfer_next(len, cnt) is Finish ==> transfer_next(len, cnt)->Finish_0 == Ok::<
            usize,
            Error,
        >(cnt),
{
}

} // verus!
