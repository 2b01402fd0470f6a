//! The spawn channel: a bounded multi-producer, single-consumer queue of the
//! standard library, through which nodes ask for children.

use std::sync::mpsc::{Receiver, SyncSender, TryRecvError};
use vstd::prelude::*;

verus! {

/// How many spawn requests the channel holds, and so how many one sweep
/// boundary admits at most.
pub const QUEUE_BOUND: usize = 1000;

/// The receiving half of a channel of the standard library.
#[verifier::external_type_specification]
#[verifier::external_body]
#[verifier::reject_recursive_types(T)]
pub struct ExReceiver<T>(Receiver<T>);

/// The sending half of a bounded channel of the standard library.
#[verifier::external_type_specification]
#[verifier::external_body]
#[verifier::reject_recursive_types(T)]
pub struct ExSyncSender<T>(SyncSender<T>);

/// Why a receive that does not wait came back without a message.
#[verifier::external_type_specification]
#[verifier::external_body]
pub struct ExTryRecvError(TryRecvError);

/// `std::sync::mpsc::sync_channel`: a new channel that holds up to `bound`
/// messages. Nothing is claimed of the two halves.
pub assume_specification<T>[ std::sync::mpsc::sync_channel::<T> ](bound: usize) -> (halves: (
    SyncSender<T>,
    Receiver<T>,
));

/// `Receiver::try_recv`: takes a pending message without waiting. What comes
/// back depends on what the senders have done, so nothing is claimed of it.
pub assume_specification<T>[ Receiver::<T>::try_recv ](queue: &Receiver<T>) -> (taken: Result<
    T,
    TryRecvError,
>);

/// `SyncSender::clone`: another handle to the same channel. Nothing is
/// claimed of the handle.
pub assume_specification<T>[ <SyncSender<T> as Clone>::clone ](sender: &SyncSender<T>) -> (copy:
    SyncSender<T>);

} // verus!
