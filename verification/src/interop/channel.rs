//! The bounded channel of the `futures-channel` crate, with body messages in it.
//!
//! What a handle has accepted or received is stated as the history of that
//! handle. What comes out of a channel at a given moment depends on who else
//! holds a handle, so nothing is said of it. Nor do the handles show whether the
//! channel can count one more message or handle, which memory runs out long
//! before, or whether a waker has panicked while the channel was waking it. The
//! channel panics there.

use core::pin::Pin;
use core::task::Context;
use futures_channel::mpsc::{self, Receiver, SendError, Sender, TrySendError};
use futures_util::Stream;
use vstd::prelude::*;

use crate::request_body::{Message, Poll};

verus! {

/// [`futures_channel::mpsc::Sender`], the sending end of a bounded channel.
#[verifier::external_type_specification]
#[verifier::external_body]
#[verifier::reject_recursive_types(T)]
pub struct ExSender<T>(futures_channel::mpsc::Sender<T>);

/// [`futures_channel::mpsc::Receiver`], the receiving end of a bounded channel.
#[verifier::external_type_specification]
#[verifier::external_body]
#[verifier::reject_recursive_types(T)]
pub struct ExReceiver<T>(futures_channel::mpsc::Receiver<T>);

/// [`futures_channel::mpsc::SendError`], says why a channel takes no message.
#[verifier::external_type_specification]
#[verifier::external_body]
pub struct ExSendError(futures_channel::mpsc::SendError);

/// [`futures_channel::mpsc::TrySendError`], a message that the channel did not
/// take, and why.
#[verifier::external_type_specification]
#[verifier::external_body]
#[verifier::reject_recursive_types(T)]
pub struct ExTrySendError<T>(futures_channel::mpsc::TrySendError<T>);

/// [`core::task::Context`], the task that is polling.
#[verifier::external_type_specification]
#[verifier::external_body]
pub struct ExContext<'a>(core::task::Context<'a>);

/// The messages that the channel has accepted through this handle, in order.
pub uninterp spec fn accepted(tx: Sender<Message>) -> Seq<Message>;

/// The handle has used up its slot and may have to wait for the receiver.
pub uninterp spec fn parked(tx: Sender<Message>) -> bool;

/// The slots that the channel was made with, beside the one that each handle
/// has.
pub uninterp spec fn spare_slots(tx: Sender<Message>) -> nat;

/// The messages that the channel had taken, through whichever handle, when this
/// one last put a message in, in the order in which they were put in. A handle
/// that has put none in keeps what the one it was cloned from had.
pub uninterp spec fn queue_order(tx: Sender<Message>) -> Seq<Message>;

/// This handle, or the one that it was cloned from, has found the channel
/// closed. A channel does not open again.
pub uninterp spec fn found_closed(tx: Sender<Message>) -> bool;

/// The messages that this receiver has handed out, in order.
pub uninterp spec fn received(rx: Receiver<Message>) -> Seq<Message>;

/// The receiver has reported the end of the channel.
pub uninterp spec fn finished(rx: Receiver<Message>) -> bool;

/// What `Sender::is_connected_to` tells: the two are ends of one channel that
/// the receiver has not finished.
pub uninterp spec fn connected(tx: Sender<Message>, rx: Receiver<Message>) -> bool;

/// What `TrySendError::is_full` tells: the message was not taken because the
/// sender is parked, and not because the receiver is gone.
pub uninterp spec fn full(error: TrySendError<Message>) -> bool;

/// The message that was not taken, which `TrySendError::into_inner` hands back.
pub uninterp spec fn unsent(error: TrySendError<Message>) -> Message;

/// Two readings of one order: what the one has beyond the other, the other has
/// not come to yet.
pub open spec fn agree(a: Seq<Message>, b: Seq<Message>) -> bool {
    a.is_prefix_of(b) || b.is_prefix_of(a)
}

/// The last of the messages that were handed out was put in through this handle,
/// behind all the others.
pub open spec fn put_in_last(tx: Sender<Message>, handed_out: Seq<Message>) -> bool {
    &&& handed_out.len() > 0
    &&& queue_order(tx) == handed_out
    &&& accepted(tx).len() > 0
    &&& accepted(tx).last() == handed_out.last()
}

/// What a receiver hands out, while it goes from `before` to `after`, comes in the
/// order in which it was put in: it agrees with what any handle of the channel
/// knows of that order. A further message was put in through some handle. Once the
/// end is reported, nothing that was put in is left.
pub open spec fn hands_on(before: Receiver<Message>, after: Receiver<Message>) -> bool {
    &&& forall|tx: Sender<Message>|
        connected(tx, before) ==> agree(received(after), #[trigger] queue_order(tx))
    &&& received(after).len() > received(before).len() ==> exists|tx: Sender<Message>|
        connected(tx, before) && #[trigger] put_in_last(tx, received(after))
    &&& finished(after) ==> forall|tx: Sender<Message>|
        connected(tx, before) ==> #[trigger] queue_order(tx).is_prefix_of(received(after))
}

/// `mpsc::channel` makes the two ends of a new, empty channel, which has as many
/// slots as the buffer says beside the one of each handle. It panics where the
/// buffer is a quarter of the address space or more.
#[verifier::external_body]
pub(crate) fn new_channel(buffer: usize) -> (ends: (Sender<Message>, Receiver<Message>))
    requires
        buffer < usize::MAX / 4,
    ensures
        accepted(ends.0) == Seq::<Message>::empty(),
        queue_order(ends.0) == Seq::<Message>::empty(),
        spare_slots(ends.0) == buffer,
        !parked(ends.0),
        !found_closed(ends.0),
        received(ends.1) == Seq::<Message>::empty(),
        !finished(ends.1),
        connected(ends.0, ends.1),
{
    mpsc::channel(buffer)
}

/// `Receiver::poll_next` hands out the next message, or reports the end, or
/// neither. Once it has reported the end it does so at every further call.
///
/// The messages come out in the order in which they were put in, whichever handle
/// each was put in through: what was handed out and what any handle of the
/// channel knows of that order agree, and some handle put in what is handed out.
/// The end is reported when the channel is closed and everything that was put in
/// has been handed out. When a message that was put in comes out, or the end is
/// reported, is left unsaid: it rests on what the holders of the handles do
/// meanwhile.
#[verifier::external_body]
pub(crate) fn poll_message(rx: &mut Receiver<Message>, cx: &mut Context<'_>) -> (next: Poll<
    Option<Message>,
>)
    ensures
        received(*final(rx)) == match next {
            Poll::Ready(Some(message)) => received(*old(rx)).push(message),
            _ => received(*old(rx)),
        },
        finished(*final(rx)) == (next == Poll::<Option<Message>>::Ready(None)),
        finished(*old(rx)) ==> next == Poll::<Option<Message>>::Ready(None),
        !finished(*final(rx)) ==> forall|tx: Sender<Message>|
            connected(tx, *final(rx)) == connected(tx, *old(rx)),
        hands_on(*old(rx), *final(rx)),
{
    match Pin::new(rx).poll_next(cx) {
        core::task::Poll::Ready(next) => Poll::Ready(next),
        core::task::Poll::Pending => Poll::Pending,
    }
}

/// `Sender::poll_ready` tells whether the channel takes a message from this
/// handle: yes, not yet, or never again. The answer yes frees the handle from
/// being parked, the answer not yet is given to a parked handle only and leaves
/// it parked, and the answer never again is given at every further call. When a
/// slot comes back or the channel closes is left unsaid: it rests on what the
/// receiver does meanwhile.
#[verifier::external_body]
pub(crate) fn poll_sender(tx: &mut Sender<Message>, cx: &mut Context<'_>) -> (ready: Poll<
    Result<(), SendError>,
>)
    ensures
        parked(*final(tx)) == match ready {
            Poll::Ready(Ok(())) => false,
            Poll::Ready(Err(_)) => parked(*old(tx)),
            Poll::Pending => true,
        },
        ready is Pending ==> parked(*old(tx)),
        found_closed(*final(tx)) == (ready matches Poll::Ready(Err(_))),
        found_closed(*old(tx)) ==> (ready matches Poll::Ready(Err(_))),
        accepted(*final(tx)) == accepted(*old(tx)),
        queue_order(*final(tx)) == queue_order(*old(tx)),
        spare_slots(*final(tx)) == spare_slots(*old(tx)),
        forall|rx: Receiver<Message>| connected(*final(tx), rx) == connected(*old(tx), rx),
{
    match tx.poll_ready(cx) {
        core::task::Poll::Ready(ready) => Poll::Ready(ready),
        core::task::Poll::Pending => Poll::Pending,
    }
}

/// `Sender::try_send` puts the message into the channel, behind those that were
/// put in before, or hands it back. That the channel is full is reported to a
/// parked handle only, which stays parked. A closed channel takes no message, and
/// the handle that finds it closed is not parked. Where the channel has no spare
/// slots, a message that was taken leaves the handle parked, unless the channel
/// was closed meanwhile. When a slot comes back or the channel closes is left
/// unsaid: it rests on what the receiver does meanwhile.
#[verifier::external_body]
pub(crate) fn try_send_message(tx: &mut Sender<Message>, message: Message) -> (outcome: Result<
    (),
    TrySendError<Message>,
>)
    ensures
        match outcome {
            Ok(()) => {
                &&& accepted(*final(tx)) == accepted(*old(tx)).push(message)
                &&& queue_order(*old(tx)).is_prefix_of(queue_order(*final(tx)))
                &&& queue_order(*final(tx)).len() > queue_order(*old(tx)).len()
                &&& queue_order(*final(tx)).last() == message
                &&& !found_closed(*old(tx))
                &&& spare_slots(*old(tx)) == 0 ==> parked(*final(tx)) == !found_closed(*final(tx))
            },
            Err(error) => {
                &&& accepted(*final(tx)) == accepted(*old(tx))
                &&& queue_order(*final(tx)) == queue_order(*old(tx))
                &&& found_closed(*final(tx)) == (found_closed(*old(tx)) || !full(error))
                &&& unsent(error) == message
                &&& full(error) ==> parked(*old(tx))
                &&& parked(*final(tx)) == full(error)
            },
        },
        spare_slots(*final(tx)) == spare_slots(*old(tx)),
        forall|rx: Receiver<Message>| connected(*final(tx), rx) == connected(*old(tx), rx),
{
    tx.try_send(message)
}

/// `Sender::clone` makes another handle on the same channel, with a slot of its
/// own.
#[verifier::external_body]
pub(crate) fn clone_sender(tx: &Sender<Message>) -> (copy: Sender<Message>)
    ensures
        accepted(copy) == Seq::<Message>::empty(),
        queue_order(copy) == queue_order(*tx),
        spare_slots(copy) == spare_slots(*tx),
        !parked(copy),
        found_closed(copy) == found_closed(*tx),
        forall|rx: Receiver<Message>| connected(copy, rx) == connected(*tx, rx),
{
    tx.clone()
}

/// `TrySendError::is_full` tells whether the channel was full.
#[verifier::external_body]
pub(crate) fn is_full(error: &TrySendError<Message>) -> (b: bool)
    ensures
        b == full(*error),
{
    error.is_full()
}

/// `TrySendError::into_inner` hands the message back.
#[verifier::external_body]
pub(crate) fn unsent_message(error: TrySendError<Message>) -> (message: Message)
    ensures
        message == unsent(error),
{
    error.into_inner()
}

} // verus!
