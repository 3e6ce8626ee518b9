//! The event bus of an actor system: a broadcast channel on which every
//! subscriber receives each event published after it subscribed.

use vstd::prelude::*;

use tokio::sync::broadcast::error::SendError;
use tokio::sync::broadcast::{Receiver, Sender};

verus! {

#[verifier::external_type_specification]
#[verifier::external_body]
#[verifier::reject_recursive_types(T)]
pub struct ExBroadcastSender<T>(Sender<T>);

#[verifier::external_type_specification]
#[verifier::external_body]
#[verifier::reject_recursive_types(T)]
pub struct ExBroadcastReceiver<T>(Receiver<T>);

/// tokio's `SendError<T>(pub T)`, declared with its field visible: it holds
/// the value that could not be sent.
#[verifier::external_type_specification]
#[verifier::reject_recursive_types(T)]
pub struct ExBroadcastSendError<T>(SendError<T>);

/// The receiving end of a bus: it gets each event published after it was
/// made.
pub type EventReceiver<T> = Receiver<T>;

/// Calls `tokio::sync::broadcast::channel`, which makes a channel that holds
/// up to `capacity` unread events (rounded up to a power of two). The call
/// panics when `capacity` is zero or above `usize::MAX / 2`, so those are
/// left out; nothing is claimed of the two ends.
#[verifier::external_body]
fn broadcast_channel<T: Clone>(capacity: usize) -> (Sender<T>, Receiver<T>)
    requires
        0 < capacity <= usize::MAX / 2,
{
    tokio::sync::broadcast::channel(capacity)
}

/// Calls `Sender::subscribe`, which hands out a new receiver of the channel.
/// Nothing is claimed of it: it is opaque here.
#[verifier::external_body]
fn sender_subscribe<T>(sender: &Sender<T>) -> Receiver<T> {
    sender.subscribe()
}

/// Calls `Sender::send`. In tokio's source it fails when the channel has no
/// receiver, handing back `SendError(value)`, and otherwise answers the number
/// of receivers, which is then at least one. How many receivers there are
/// depends on what other tasks did, so which of the two comes is not claimed.
#[verifier::external_body]
fn sender_send<T>(sender: &Sender<T>, value: T) -> (sent: Result<usize, SendError<T>>)
    ensures
        sent is Ok ==> sent->Ok_0 >= 1,
        sent is Err ==> sent->Err_0.0 == value,
{
    sender.send(value)
}

/// Calls `Sender::clone`, which hands out another sender of the same
/// channel. Nothing is claimed of it: it is opaque here.
#[verifier::external_body]
fn sender_clone<T>(sender: &Sender<T>) -> Sender<T> {
    sender.clone()
}

/// The event bus of an actor system. Clones share the same channel.
#[verifier::reject_recursive_types(T)]
pub struct EventBus<T: Clone> {
    tx: Sender<T>,
}

impl<T: Clone> EventBus<T> {
    /// A new receiver of the events published on this bus from now on.
    pub fn subscribe(&self) -> EventReceiver<T> {
        sender_subscribe(&self.tx)
    }

    /// Publishes `event` to every receiver of the bus. On success the answer
    /// is how many receivers there were, at least one; with no receiver the
    /// event comes back, unchanged, in the error.
    pub fn send(&self, event: T) -> (sent: Result<usize, SendError<T>>)
        ensures
            sent is Ok ==> sent->Ok_0 >= 1,
            sent is Err ==> sent->Err_0.0 == event,
    {
        sender_send(&self.tx, event)
    }

    /// A bus that holds up to `capacity` unread events per receiver.
    pub fn new(capacity: usize) -> Self
        requires
            0 < capacity <= usize::MAX / 2,
    {
        let (tx, _rx) = broadcast_channel(capacity);
        EventBus { tx }
    }
}

impl<T: Clone> Clone for EventBus<T> {
    fn clone(&self) -> Self {
        EventBus { tx: sender_clone(&self.tx) }
    }
}

} // verus!
