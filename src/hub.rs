use tokio::sync::broadcast::{Receiver, Sender};
use vstd::prelude::*;

use crate::coordinator::{Event, EventView};

verus! {

#[verifier::external_type_specification]
#[verifier::external_body]
#[verifier::reject_recursive_types(T)]
pub struct ExSender<T>(Sender<T>);

#[verifier::external_type_specification]
#[verifier::external_body]
#[verifier::reject_recursive_types(T)]
pub struct ExReceiver<T>(Receiver<T>);

/// The events sent on the channel of `tx` so far, in the order sent.
pub uninterp spec fn sent(tx: Sender<Event>) -> Seq<EventView>;

/// The channel a sender sends on: equal for handles of one channel.
pub uninterp spec fn channel_of_sender(tx: Sender<Event>) -> int;

/// The channel a receiver receives from.
pub uninterp spec fn channel_of_receiver(rx: Receiver<Event>) -> int;

/// How many events had been sent on its channel when the receiver was
/// made; it yields the events sent from that point on.
pub uninterp spec fn start_of(rx: Receiver<Event>) -> nat;

/// How many undelivered events the channel keeps for each receiver.
pub uninterp spec fn capacity_of(tx: Sender<Event>) -> nat;

/// Relies on tokio::sync::broadcast::channel: opens a multicast channel on
/// which nothing has been sent yet and that keeps `capacity` undelivered
/// events per receiver, rounded up to a power of two. It panics on a zero
/// capacity and on one above `usize::MAX / 2`. The receiver it also returns
/// is dropped at once.
#[verifier::external_body]
pub(crate) fn open_channel(capacity: usize) -> (r: Sender<Event>)
    requires
        0 < capacity <= usize::MAX / 2,
    ensures
        sent(r) == Seq::<EventView>::empty(),
        capacity <= capacity_of(r) < 2 * capacity,
{
    tokio::sync::broadcast::channel(capacity).0
}

/// Relies on tokio::sync::broadcast::Sender::send: appends the event to the
/// channel for every current receiver without waiting, on the same channel
/// and with the same capacity. Having no receiver is no failure here: the
/// event is then dropped by the channel, which no receiver can tell apart.
#[verifier::external_body]
pub(crate) fn publish(tx: &mut Sender<Event>, event: Event)
    ensures
        sent(*final(tx)) == sent(*old(tx)).push(event@),
        channel_of_sender(*final(tx)) == channel_of_sender(*old(tx)),
        capacity_of(*final(tx)) == capacity_of(*old(tx)),
{
    let _ = tx.send(event);
}

/// Relies on tokio::sync::broadcast::Sender::subscribe: a receiver on the
/// sender's channel of the events sent after this call.
#[verifier::external_body]
pub(crate) fn open_receiver(tx: &Sender<Event>) -> (r: Receiver<Event>)
    ensures
        channel_of_receiver(r) == channel_of_sender(*tx),
        start_of(r) == sent(*tx).len(),
{
    tx.subscribe()
}

} // verus!
