//! Work that goes on behind the metadata store: the deletion of slices that are
//! no longer needed.

use crate::slice::SliceDesc;
use async_channel::Sender;
use parking_lot::Mutex;
use tokio::task::{JoinError, JoinHandle};
use tokio_util::sync::CancellationToken;
use vstd::prelude::*;

verus! {

/// A handle by which a running task can be waited for.
#[verifier::external_type_specification]
#[verifier::external_body]
#[verifier::reject_recursive_types(T)]
pub struct ExJoinHandle<T>(JoinHandle<T>);

/// Why a task did not come to its end.
#[verifier::external_type_specification]
#[verifier::external_body]
pub struct ExJoinError(JoinError);

/// The sending end of a channel.
#[verifier::external_type_specification]
#[verifier::external_body]
#[verifier::reject_recursive_types(T)]
pub struct ExSender<T>(Sender<T>);

/// A token by which tasks are told to stop.
#[verifier::external_type_specification]
#[verifier::external_body]
pub struct ExCancellationToken(CancellationToken);

/// The lock inside a mutex.
#[verifier::external_type_specification]
#[verifier::external_body]
pub struct ExRawMutex(parking_lot::RawMutex);

/// A value behind a lock.
#[verifier::external_type_specification]
#[verifier::external_body]
#[verifier::reject_recursive_types(R)]
#[verifier::reject_recursive_types(T)]
pub struct ExMutex<R, T: ?Sized>(parking_lot::lock_api::Mutex<R, T>);

/// A task that deletes slices.
pub struct DeleteTask {
    pub handle: JoinHandle<()>,
}

/// The tasks that delete slices, the channel that feeds them, and the token
/// that stops them.
pub struct DeleteBackground {
    pub cancel: CancellationToken,
    pub sender: Option<Sender<Vec<SliceDesc>>>,
    pub tasks: Vec<DeleteTask>,
}

impl DeleteBackground {
    /// No task runs, there is no channel to feed one, and the token is one that
    /// was made uncancelled.
    pub open spec fn idle(self) -> bool {
        &&& self.sender is None
        &&& self.tasks@.len() == 0
        &&& !cancelled_when_made(self.cancel)
    }
}

/// All work in the background.
pub struct BackgroundTasks {
    pub delete: Mutex<DeleteBackground>,
}

/// A token was cancelled at the moment it was made. Whether it is cancelled
/// later is up to those who have a copy of it.
pub uninterp spec fn cancelled_when_made(token: CancellationToken) -> bool;

/// `CancellationToken::new`: a token that is made uncancelled.
#[verifier::external_body]
fn new_token() -> (res: CancellationToken)
    ensures
        !cancelled_when_made(res),
{
    CancellationToken::new()
}

/// The value that a mutex was made with. What it holds later is up to those who
/// lock it.
pub uninterp spec fn made_with(lock: Mutex<DeleteBackground>) -> DeleteBackground;

/// `Mutex::new`: an unlocked mutex that is made with `value`.
#[verifier::external_body]
fn new_lock(value: DeleteBackground) -> (res: Mutex<DeleteBackground>)
    ensures
        made_with(res) == value,
{
    Mutex::new(value)
}

impl BackgroundTasks {
    /// No work has been begun yet.
    pub fn new() -> (res: Self)
        ensures
            made_with(res.delete).idle(),
            made_with(res.delete).sender is None,
            made_with(res.delete).tasks@ == Seq::<DeleteTask>::empty(),
            !cancelled_when_made(made_with(res.delete).cancel),
    {
        let state = DeleteBackground { cancel: new_token(), sender: None, tasks: Vec::new() };
        BackgroundTasks { delete: new_lock(state) }
    }
}

} // verus!
