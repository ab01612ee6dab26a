//! Request bodies, which are handed out frame by frame.

use bytes::Bytes;
use core::ops::ControlFlow;
use core::task::Context;
use futures_channel::mpsc::{Receiver, SendError, Sender, TrySendError};
use hyper::body::{Frame, SizeHint};
use std::collections::VecDeque;
use vstd::prelude::*;
use vstd::utf8::encode_utf8;

use crate::interop::buffer::contents;
use crate::interop::channel::{
    accepted, clone_sender, connected, finished, found_closed, full, hands_on, is_full,
    new_channel, parked, poll_message, poll_sender, queue_order, received, spare_slots,
    try_send_message, unsent, unsent_message,
};
use crate::interop::http::{data_frame, frame_data, size_bounds};
use crate::layout::{joined, lemma_joined_len_le, lemma_joined_take};

verus! {

/// What a poll comes to.
#[derive(Debug)]
pub enum Poll<T> {
    /// The answer is here.
    Ready(T),
    /// The answer is still to come.
    Pending,
}

/// What travels from a [`ChunkSender`] to its body.
#[derive(Debug)]
pub enum Message {
    /// The next bytes of the body.
    Chunk(Bytes),
    /// The body cannot be completed.
    Abort,
}

/// What polling a body for a frame comes to: a frame, a reason why there will
/// be none, or the end.
pub type FramePoll = Poll<Option<Result<Frame<Bytes>, &'static str>>>;

/// What a body holds.
pub ghost enum BodyState {
    /// All bytes, in one buffer. After they were handed out the buffer is empty.
    Full(Bytes),
    /// The frames that were not handed out yet.
    Multi(Seq<Bytes>),
    /// The channel that the frames come from.
    Chunked(Receiver<Message>),
}

impl BodyState {
    /// The bytes that are known to be handed out still.
    pub open spec fn remaining(self) -> Seq<u8> {
        match self {
            BodyState::Full(bytes) => contents(bytes),
            BodyState::Multi(frames) => joined(frames),
            BodyState::Chunked(_) => Seq::empty(),
        }
    }

    /// These are the bounds on how many bytes are still to come: the exact number
    /// twice where it is known, else none.
    pub open spec fn has_bounds(self, lower: nat, upper: Option<u64>) -> bool {
        if self is Chunked {
            lower == 0 && upper is None
        } else {
            &&& lower == self.remaining().len()
            &&& upper matches Some(upper) && upper == self.remaining().len()
        }
    }

    /// A `usize` can count the bytes of the queued frames. One buffer never holds
    /// more than that.
    pub open spec fn is_countable(self) -> bool {
        self matches BodyState::Multi(frames) ==> joined(frames).len() <= usize::MAX
    }

    /// The body is known to have no more frames.
    pub open spec fn is_ended(self) -> bool {
        match self {
            BodyState::Full(bytes) => contents(bytes).len() == 0,
            BodyState::Multi(frames) => frames.len() == 0,
            BodyState::Chunked(_) => false,
        }
    }
}

/// A poll for the next frame takes a body from `before` to `after`.
pub open spec fn polled(before: BodyState, outcome: FramePoll, after: BodyState) -> bool {
    match before {
        BodyState::Full(bytes) => if contents(bytes).len() == 0 {
            outcome == FramePoll::Ready(None) && after == before
        } else {
            &&& outcome matches Poll::Ready(Some(Ok(frame))) && frame_data(frame) == Some(bytes)
            &&& after matches BodyState::Full(rest) && contents(rest) == Seq::<u8>::empty()
        },
        BodyState::Multi(frames) => if frames.len() == 0 {
            outcome == FramePoll::Ready(None) && after == before
        } else {
            &&& outcome matches Poll::Ready(Some(Ok(frame))) && frame_data(frame) == Some(
                frames.first(),
            )
            &&& after == BodyState::Multi(frames.drop_first())
        },
        BodyState::Chunked(rx) => {
            &&& after matches BodyState::Chunked(later) && {
                &&& finished(later) == (outcome == FramePoll::Ready(None))
                &&& finished(rx) ==> outcome == FramePoll::Ready(None)
                &&& !finished(later) ==> forall|tx: Sender<Message>|
                    connected(tx, later) == connected(tx, rx)
                &&& hands_on(rx, later)
                &&& match outcome {
                    Poll::Ready(Some(Ok(frame))) => {
                        &&& frame_data(frame) is Some
                        &&& received(later) == received(rx).push(
                            Message::Chunk(frame_data(frame)->0),
                        )
                    },
                    Poll::Ready(Some(Err(reason))) => {
                        &&& reason@ == "aborted"@
                        &&& received(later) == received(rx).push(Message::Abort)
                    },
                    _ => received(later) == received(rx),
                }
            }
        },
    }
}

enum Inner {
    Full(Bytes),
    // Pre-assembled frames yielded in order. Lets a multipart body chain its
    // framing with each payload's own `Bytes`. Each frame is dropped as it is
    // sent. The size stays exact as the sum of frame lengths.
    Multi(VecDeque<Bytes>),
    Chunked(Receiver<Message>),
}

/// The body of a request.
pub struct RequestBody(Inner);

impl View for RequestBody {
    type V = BodyState;

    closed spec fn view(&self) -> BodyState {
        match self.0 {
            Inner::Full(bytes) => BodyState::Full(bytes),
            Inner::Multi(frames) => BodyState::Multi(frames@),
            Inner::Chunked(rx) => BodyState::Chunked(rx),
        }
    }
}

impl RequestBody {
    /// A body that is known as a whole.
    pub fn full(content: String) -> (body: Self)
        ensures
            body@ matches BodyState::Full(bytes) && contents(bytes) == encode_utf8(content@),
    {
        Self(Inner::Full(Bytes::from(content)))
    }

    /// A body that is known frame by frame.
    pub fn multi(frames: Vec<Bytes>) -> (body: Self)
        ensures
            body@ == BodyState::Multi(frames@),
    {
        let mut queue: VecDeque<Bytes> = VecDeque::new();
        for frame in it: frames
            invariant
                it.seq() == frames@,
                queue@ == frames@.take(it.index()),
        {
            queue.push_back(frame);
        }
        assert(frames@.take(frames@.len() as int) =~= frames@);
        Self(Inner::Multi(queue))
    }

    /// A body that is sent while it comes into being, and the handle through
    /// which it does.
    pub fn chunked() -> (ends: (ChunkSender, Self))
        ensures
            accepted(ends.0.0) == Seq::<Message>::empty(),
            queue_order(ends.0.0) == Seq::<Message>::empty(),
            spare_slots(ends.0.0) == 0,
            !parked(ends.0.0),
            !found_closed(ends.0.0),
            ends.1@ matches BodyState::Chunked(rx) && {
                &&& received(rx) == Seq::<Message>::empty()
                &&& !finished(rx)
                &&& connected(ends.0.0, rx)
            },
    {
        let (tx, rx) = new_channel(0);  // each sender gets a guaranteed slot
        (ChunkSender(tx), Self(Inner::Chunked(rx)))
    }

    /// Polls for the next frame.
    pub fn poll_frame(&mut self, cx: &mut Context<'_>) -> (outcome: FramePoll)
        ensures
            polled(old(self)@, outcome, final(self)@),
    {
        match &mut self.0 {
            Inner::Full(bytes) => {
                if bytes.is_empty() {
                    Poll::Ready(None)
                } else {
                    let mut taken = Bytes::new();
                    core::mem::swap(bytes, &mut taken);
                    Poll::Ready(Some(Ok(data_frame(taken))))
                }
            },
            Inner::Multi(frames) => match frames.pop_front() {
                Some(bytes) => Poll::Ready(Some(Ok(data_frame(bytes)))),
                None => Poll::Ready(None),
            },
            Inner::Chunked(rx) => next_frame(poll_message(rx, cx)),
        }
    }

    /// Tells whether there are no more frames. `false` where that is not known.
    pub fn is_end_stream(&self) -> (ended: bool)
        ensures
            ended == self@.is_ended(),
    {
        match &self.0 {
            Inner::Full(bytes) => bytes.is_empty(),
            Inner::Multi(frames) => frames.len() == 0,
            Inner::Chunked(_) => false,
        }
    }

    /// How many bytes are still to come: the exact number where it is known.
    pub fn size_hint(&self) -> (hint: SizeHint)
        requires
            self@.is_countable(),
        ensures
            self@.has_bounds(size_bounds(hint).0 as nat, size_bounds(hint).1),
    {
        match &self.0 {
            Inner::Full(bytes) => SizeHint::with_exact(bytes.len() as u64),
            Inner::Multi(frames) => match queued_len(frames) {
                Some(n) => SizeHint::with_exact(n as u64),
                None => vstd::pervasive::unreached(),
            },
            Inner::Chunked(_) => SizeHint::default(),
        }
    }

    /// Tells whether a `usize` can count the bytes that are known to be still to
    /// come, as [`Self::size_hint`] does.
    pub fn is_countable(&self) -> (countable: bool)
        ensures
            countable == self@.is_countable(),
    {
        match &self.0 {
            Inner::Multi(frames) => queued_len(frames).is_some(),
            _ => true,
        }
    }
}

/// The number of bytes that the queued frames hold together, if a `usize` can
/// count them.
fn queued_len(frames: &VecDeque<Bytes>) -> (total: Option<usize>)
    ensures
        match total {
            Some(n) => n == joined(frames@).len(),
            None => joined(frames@).len() > usize::MAX,
        },
{
    let mut n: usize = 0;
    let mut i: usize = 0;
    proof {
        lemma_joined_take(frames@, 0);
    }
    while i < frames.len()
        invariant
            i <= frames@.len(),
            n == joined(frames@.take(i as int)).len(),
        decreases frames@.len() - i,
    {
        proof {
            lemma_joined_take(frames@, i as int);
            lemma_joined_len_le(frames@, i + 1);
        }
        match n.checked_add(frames[i].len()) {
            Some(sum) => {
                n = sum;
            },
            None => {
                return None;
            },
        }
        i = i + 1;
    }
    assert(frames@.take(i as int) =~= frames@);
    Some(n)
}

/// What a poll of the channel means for the body.
pub fn next_frame(next: Poll<Option<Message>>) -> (outcome: FramePoll)
    ensures
        match next {
            Poll::Ready(Some(Message::Chunk(bytes))) => outcome matches Poll::Ready(Some(Ok(frame)))
                && frame_data(frame) == Some(bytes),
            Poll::Ready(Some(Message::Abort)) => outcome matches Poll::Ready(Some(Err(reason)))
                && reason@ == "aborted"@,
            Poll::Ready(None) => outcome == FramePoll::Ready(None),
            Poll::Pending => outcome == FramePoll::Pending,
        },
{
    match next {
        Poll::Ready(Some(Message::Chunk(bytes))) => Poll::Ready(Some(Ok(data_frame(bytes)))),
        Poll::Ready(Some(Message::Abort)) => Poll::Ready(Some(Err("aborted"))),
        Poll::Ready(None) => Poll::Ready(None),
        Poll::Pending => Poll::Pending,
    }
}

/// The handle through which the chunks of a body are sent.
pub struct ChunkSender(pub Sender<Message>);

/// What trying to send a chunk comes to: it was sent, the channel is closed, or
/// the chunk comes back to be tried again.
pub type SendOutcome = ControlFlow<Result<(), &'static str>, Bytes>;

/// Asking whether a chunk can be sent takes a handle from `before` to `after`.
/// Only a handle that is parked is kept waiting, and it stays parked. The answer
/// yes frees it. The answer no means that the channel is closed, and is the only
/// answer from then on.
pub open spec fn asked(before: Sender<Message>, ready: Poll<bool>, after: Sender<Message>) -> bool {
    &&& accepted(after) == accepted(before)
    &&& queue_order(after) == queue_order(before)
    &&& spare_slots(after) == spare_slots(before)
    &&& match ready {
        Poll::Ready(true) => !parked(after) && !found_closed(before) && !found_closed(after),
        Poll::Ready(false) => parked(after) == parked(before) && found_closed(after),
        Poll::Pending => parked(before) && parked(after) && !found_closed(before) && !found_closed(
            after,
        ),
    }
    &&& forall|rx: Receiver<Message>| connected(after, rx) == connected(before, rx)
}

/// Trying to send a chunk takes a handle from `before` to `after`. A chunk that is
/// accepted stands behind everything that the handle knows to be in the channel, and
/// uses up the slot of the handle where the channel has no spare ones. Only a handle
/// that is parked gets its chunk back, and it stays parked. A closed channel takes
/// nothing more.
pub open spec fn tried(
    before: Sender<Message>,
    chunk: Bytes,
    outcome: SendOutcome,
    after: Sender<Message>,
) -> bool {
    &&& match outcome {
        ControlFlow::Break(Ok(())) => {
            &&& accepted(after) == accepted(before).push(Message::Chunk(chunk))
            &&& queue_order(before).is_prefix_of(queue_order(after))
            &&& queue_order(after).len() > queue_order(before).len()
            &&& queue_order(after).last() == Message::Chunk(chunk)
            &&& !found_closed(before)
            &&& spare_slots(before) == 0 ==> parked(after) == !found_closed(after)
        },
        ControlFlow::Break(Err(reason)) => {
            &&& accepted(after) == accepted(before)
            &&& queue_order(after) == queue_order(before)
            &&& reason@ == "channel closed"@
            &&& !parked(after)
            &&& found_closed(after)
        },
        ControlFlow::Continue(bytes) => {
            &&& accepted(after) == accepted(before)
            &&& queue_order(after) == queue_order(before)
            &&& bytes == chunk
            &&& parked(before)
            &&& parked(after)
            &&& found_closed(after) == found_closed(before)
        },
    }
    &&& spare_slots(after) == spare_slots(before)
    &&& forall|rx: Receiver<Message>| connected(after, rx) == connected(before, rx)
}

/// Sending the message that aborts the body leaves the handle `before` as it is
/// and comes to `sent`: the fresh handle through which it was sent, and whether it
/// was. It was sent behind everything that `before` knows to be in the channel. It
/// is refused only where the channel is closed.
pub open spec fn aborted(
    before: Sender<Message>,
    sent: (Sender<Message>, Result<(), TrySendError<Message>>),
) -> bool {
    &&& match sent.1 {
        Ok(()) => {
            &&& accepted(sent.0) == seq![Message::Abort]
            &&& queue_order(before).is_prefix_of(queue_order(sent.0))
            &&& queue_order(sent.0).len() > queue_order(before).len()
            &&& queue_order(sent.0).last() == Message::Abort
            &&& !found_closed(before)
        },
        Err(error) => {
            &&& accepted(sent.0) == Seq::<Message>::empty()
            &&& queue_order(sent.0) == queue_order(before)
            &&& unsent(error) == Message::Abort
            &&& !full(error)
            &&& found_closed(sent.0)
        },
    }
    &&& spare_slots(sent.0) == spare_slots(before)
    &&& forall|rx: Receiver<Message>| connected(sent.0, rx) == connected(before, rx)
}

impl ChunkSender {
    /// Asks whether a chunk can be sent. `false` where the body is gone.
    pub fn poll_ready(&mut self, cx: &mut Context<'_>) -> (ready: Poll<bool>)
        ensures
            asked(old(self).0, ready, final(self).0),
    {
        ready_answer(poll_sender(&mut self.0, cx))
    }

    /// Tries to send a chunk.
    pub fn try_send(&mut self, chunk: Bytes) -> (outcome: SendOutcome)
        ensures
            tried(old(self).0, chunk, outcome, final(self).0),
    {
        send_answer(try_send_message(&mut self.0, Message::Chunk(chunk)))
    }

    /// Tells the body that it cannot be completed, behind the chunks that were
    /// sent before. Where the body is gone, nothing happens.
    pub fn abort(&self)
        ensures
            exists|sent: (Sender<Message>, Result<(), TrySendError<Message>>)| #[trigger]
                aborted(self.0, sent),
    {
        let _ = self.send_abort();
    }

    /// Sends the message that aborts the body, and returns the handle through
    /// which it was sent. A fresh handle can send even if the channel is full:
    /// the message is refused only where the body is gone.
    pub fn send_abort(&self) -> (sent: (Sender<Message>, Result<(), TrySendError<Message>>))
        ensures
            aborted(self.0, sent),
    {
        let mut tx = clone_sender(&self.0);
        let outcome = try_send_message(&mut tx, Message::Abort);
        assert(Seq::<Message>::empty().push(Message::Abort) =~= seq![Message::Abort]);
        (tx, outcome)
    }
}

/// What the channel's answer to a poll means for a sender.
pub fn ready_answer(answer: Poll<Result<(), SendError>>) -> (ready: Poll<bool>)
    ensures
        ready == match answer {
            Poll::Ready(Ok(())) => Poll::Ready(true),
            Poll::Ready(Err(_)) => Poll::Ready(false),
            Poll::Pending => Poll::Pending,
        },
{
    match answer {
        Poll::Ready(answer) => Poll::Ready(answer.is_ok()),
        Poll::Pending => Poll::Pending,
    }
}

/// What the channel's answer to a chunk means for a sender.
pub fn send_answer(answer: Result<(), TrySendError<Message>>) -> (outcome: SendOutcome)
    requires
        answer matches Err(error) ==> full(error) ==> unsent(error) is Chunk,
    ensures
        match answer {
            Ok(()) => outcome == SendOutcome::Break(Ok(())),
            Err(error) => if full(error) {
                outcome == SendOutcome::Continue(unsent(error)->0)
            } else {
                outcome matches ControlFlow::Break(Err(reason)) && reason@ == "channel closed"@
            },
        },
{
    match answer {
        Ok(()) => ControlFlow::Break(Ok(())),
        Err(error) => {
            if is_full(&error) {
                match unsent_message(error) {
                    Message::Chunk(bytes) => ControlFlow::Continue(bytes),
                    Message::Abort => vstd::pervasive::unreached(),
                }
            } else {
                ControlFlow::Break(Err("channel closed"))
            }
        },
    }
}

} // verus!
