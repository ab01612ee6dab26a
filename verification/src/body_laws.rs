//! What a caller can count on when a body is made, polled and measured, and when
//! chunks are sent to one. The laws speak of what the functions were given and of
//! what came back.

use bytes::Bytes;
use core::ops::ControlFlow;
use core::task::Context;
use futures_channel::mpsc::{Receiver, SendError, Sender, TrySendError};
use hyper::body::SizeHint;
use vstd::prelude::*;
use vstd::utf8::encode_utf8;

use crate::external_data::Multipart;
use crate::interop::buffer::contents;
use crate::interop::channel::{
    accepted, agree, connected, finished, found_closed, full, parked, queue_order, received,
    spare_slots, unsent,
};
use crate::interop::http::{frame_data, size_bounds};
use crate::layout::contents_of;
use crate::request_body::{
    aborted, asked, next_frame, polled, ready_answer, send_answer, tried, BodyState, ChunkSender,
    FramePoll, Message, Poll, RequestBody, SendOutcome,
};
use crate::stream_laws::{
    is_run, law_accepted_chunk_is_yielded, law_body_is_delivered, law_ended_body_yields_nothing,
    law_frames_in_order, law_full_in_one_frame, law_remaining_shrinks, messages, yielded,
};
use crate::table_laws::law_content_length_counts_all_bytes;
use crate::text::lemma_encode_injective;

verus! {

/// A poll that reports the end of a body whose bytes are known finds it ended, and
/// leaves it so.
proof fn lemma_end_was_reached(states: Seq<BodyState>, outcomes: Seq<FramePoll>)
    requires
        is_run(states, outcomes),
        !(states[0] is Chunked),
        outcomes.contains(FramePoll::Ready(None)),
    ensures
        states.last().is_ended(),
{
    let i = choose|i: int| 0 <= i < outcomes.len() && outcomes[i] == FramePoll::Ready(None);
    lemma_stays_known(states, outcomes, i);
    assert(polled(states[i], outcomes[i], states[i + 1]));
    lemma_stays_ended(states, outcomes, i + 1, states.len() - 1);
}

/// A body whose bytes are known stays one.
proof fn lemma_stays_known(states: Seq<BodyState>, outcomes: Seq<FramePoll>, i: int)
    requires
        is_run(states, outcomes),
        !(states[0] is Chunked),
        0 <= i < states.len(),
    ensures
        !(states[i] is Chunked),
    decreases i,
{
    if i > 0 {
        lemma_stays_known(states, outcomes, i - 1);
        assert(polled(states[i - 1], outcomes[i - 1], states[i]));
    }
}

/// A body that has ended stays so.
proof fn lemma_stays_ended(states: Seq<BodyState>, outcomes: Seq<FramePoll>, from: int, to: int)
    requires
        is_run(states, outcomes),
        0 <= from <= to < states.len(),
        states[from].is_ended(),
    ensures
        states[to].is_ended(),
    decreases to - from,
{
    if from < to {
        lemma_stays_ended(states, outcomes, from, to - 1);
        assert(polled(states[to - 1], outcomes[to - 1], states[to]));
        law_ended_body_yields_nothing(states[to - 1], outcomes[to - 1], states[to]);
    }
}

/// Polling a body once is a step of the run that its polls make.
pub proof fn law_poll_is_a_step(body: &mut RequestBody, cx: &mut Context<'_>, outcome: FramePoll)
    requires
        call_ensures(RequestBody::poll_frame, (body, cx), outcome),
    ensures
        is_run(seq![old(body)@, final(body)@], seq![outcome]),
{
}

/// A body that was made of a text yields the UTF-8 bytes of that text, all of them
/// and nothing else, in one frame, and then it has ended. An empty text yields no
/// frame.
pub proof fn law_full_body_is_its_text(
    content: String,
    body: RequestBody,
    states: Seq<BodyState>,
    outcomes: Seq<FramePoll>,
)
    requires
        call_ensures(RequestBody::full, (content,), body),
        is_run(states, outcomes),
        states[0] == body@,
        outcomes.contains(FramePoll::Ready(None)) || states.last().is_ended(),
    ensures
        yielded(outcomes) == encode_utf8(content@),
        outcomes.len() > 0 && content@.len() > 0 ==> (outcomes[0] matches Poll::Ready(
            Some(Ok(frame)),
        ) && (frame_data(frame) matches Some(buffer) && contents(buffer) == encode_utf8(
            content@,
        ))),
        forall|i: int|
            0 < i < outcomes.len() ==> #[trigger] outcomes[i] == FramePoll::Ready(None),
        outcomes.len() > 0 && content@.len() == 0 ==> outcomes[0] == FramePoll::Ready(None),
{
    if outcomes.contains(FramePoll::Ready(None)) {
        lemma_end_was_reached(states, outcomes);
    }
    law_body_is_delivered(states, outcomes);
    let bytes = body@->Full_0;
    if outcomes.len() > 0 {
        law_full_in_one_frame(states, outcomes, bytes, 0);
        if content@.len() > 0 {
            lemma_text_has_bytes(content@);
        }
    }
    assert forall|i: int| 0 < i < outcomes.len() implies #[trigger] outcomes[i]
        == FramePoll::Ready(None) by {
        law_full_in_one_frame(states, outcomes, bytes, i);
    }
}

/// A text that is not empty has bytes.
proof fn lemma_text_has_bytes(text: Seq<char>)
    requires
        text.len() > 0,
    ensures
        encode_utf8(text).len() > 0,
{
    if encode_utf8(text).len() == 0 {
        assert(encode_utf8(text) =~= encode_utf8(Seq::<char>::empty()));
        lemma_encode_injective(text, Seq::empty());
    }
}

/// A body that was made of frames yields each of them as it is, in their order, and
/// nothing else, and then it has ended.
pub proof fn law_multi_body_is_its_frames(
    frames: Vec<Bytes>,
    body: RequestBody,
    states: Seq<BodyState>,
    outcomes: Seq<FramePoll>,
)
    requires
        call_ensures(RequestBody::multi, (frames,), body),
        is_run(states, outcomes),
        states[0] == body@,
    ensures
        forall|i: int|
            0 <= i < outcomes.len() ==> if i < frames@.len() {
                #[trigger] outcomes[i] matches Poll::Ready(Some(Ok(frame))) && frame_data(frame)
                    == Some(frames@[i])
            } else {
                outcomes[i] == FramePoll::Ready(None)
            },
        outcomes.contains(FramePoll::Ready(None)) || states.last().is_ended() ==> yielded(outcomes)
            == frames@.map_values(|b: Bytes| contents(b)).flatten(),
{
    assert forall|i: int| 0 <= i < outcomes.len() implies if i < frames@.len() {
        #[trigger] outcomes[i] matches Poll::Ready(Some(Ok(frame))) && frame_data(frame) == Some(
            frames@[i],
        )
    } else {
        outcomes[i] == FramePoll::Ready(None)
    } by {
        law_frames_in_order(states, outcomes, frames@, i);
    }
    if outcomes.contains(FramePoll::Ready(None)) {
        lemma_end_was_reached(states, outcomes);
    }
    law_body_is_delivered(states, outcomes);
    assert(frames@.map_values(|b: Bytes| contents(b)) =~= contents_of(frames@));
}

/// The size that a body reports, where its bytes are known, is the number of bytes
/// that it yields until it has ended.
pub proof fn law_size_hint_is_what_comes(
    body: RequestBody,
    hint: SizeHint,
    states: Seq<BodyState>,
    outcomes: Seq<FramePoll>,
)
    requires
        call_ensures(RequestBody::size_hint, (&body,), hint),
        !(body@ is Chunked),
        is_run(states, outcomes),
        states[0] == body@,
        outcomes.contains(FramePoll::Ready(None)) || states.last().is_ended(),
    ensures
        size_bounds(hint).0 == yielded(outcomes).len(),
        size_bounds(hint).1 matches Some(upper) && upper == yielded(outcomes).len(),
{
    if outcomes.contains(FramePoll::Ready(None)) {
        lemma_end_was_reached(states, outcomes);
    }
    law_body_is_delivered(states, outcomes);
}

/// The size of a new body is the number of bytes of the text, or of the frames, that
/// it was made of. Of a body that is sent while it comes into being nothing is known.
pub proof fn law_size_hint_of_new_bodies(
    content: String,
    full: RequestBody,
    full_hint: SizeHint,
    frames: Vec<Bytes>,
    multi: RequestBody,
    multi_hint: SizeHint,
    ends: (ChunkSender, RequestBody),
    chunked_hint: SizeHint,
)
    requires
        call_ensures(RequestBody::full, (content,), full),
        call_ensures(RequestBody::size_hint, (&full,), full_hint),
        call_ensures(RequestBody::multi, (frames,), multi),
        call_ensures(RequestBody::size_hint, (&multi,), multi_hint),
        call_ensures(RequestBody::chunked, (), ends),
        call_ensures(RequestBody::size_hint, (&ends.1,), chunked_hint),
    ensures
        size_bounds(full_hint).0 == encode_utf8(content@).len(),
        size_bounds(full_hint).1 == Some(size_bounds(full_hint).0),
        size_bounds(multi_hint).0 == frames@.map_values(|b: Bytes| contents(b)).flatten().len(),
        size_bounds(multi_hint).1 == Some(size_bounds(multi_hint).0),
        size_bounds(chunked_hint) == (0u64, None::<u64>),
{
    assert(frames@.map_values(|b: Bytes| contents(b)) =~= contents_of(frames@));
}

/// The size that a body reports, where its bytes are known, shrinks with each poll by
/// the number of bytes that the poll yields.
pub proof fn law_size_hint_shrinks(
    before: RequestBody,
    after: RequestBody,
    outcome: FramePoll,
    hint_before: SizeHint,
    hint_after: SizeHint,
)
    requires
        call_ensures(RequestBody::size_hint, (&before,), hint_before),
        call_ensures(RequestBody::size_hint, (&after,), hint_after),
        !(before@ is Chunked),
        polled(before@, outcome, after@),
    ensures
        size_bounds(hint_before).0 == (match outcome {
            Poll::Ready(Some(Ok(frame))) => contents(frame_data(frame)->0).len() as int,
            _ => 0,
        }) + size_bounds(hint_after).0,
{
    law_remaining_shrinks(before@, outcome, after@);
    let one = seq![outcome];
    assert(one.drop_last() =~= Seq::empty());
    assert(yielded(one.drop_last()) =~= Seq::<u8>::empty());
}

/// The content length of a multipart body is what the body made of its frames yields,
/// and what that body reports as its size.
pub proof fn law_content_length_is_what_comes(
    multipart: Multipart,
    length: usize,
    body: RequestBody,
    hint: SizeHint,
    states: Seq<BodyState>,
    outcomes: Seq<FramePoll>,
)
    requires
        call_ensures(Multipart::content_length, (&multipart,), length),
        call_ensures(RequestBody::multi, (multipart.frames,), body),
        call_ensures(RequestBody::size_hint, (&body,), hint),
        is_run(states, outcomes),
        states[0] == body@,
        outcomes.contains(FramePoll::Ready(None)) || states.last().is_ended(),
    ensures
        length == yielded(outcomes).len(),
        length == size_bounds(hint).0,
{
    law_multi_body_is_its_frames(multipart.frames, body, states, outcomes);
    law_size_hint_is_what_comes(body, hint, states, outcomes);
    law_content_length_counts_all_bytes(multipart, length);
}

/// A body says that it has ended exactly where the next poll is sure to yield no
/// frame: where its bytes are known, that is where the next poll reports the end.
/// One that is sent while it comes into being never says so.
pub proof fn law_end_stream_tells_the_next_poll(
    body: RequestBody,
    ended: bool,
    outcome: FramePoll,
    after: BodyState,
)
    requires
        call_ensures(RequestBody::is_end_stream, (&body,), ended),
        polled(body@, outcome, after),
    ensures
        body@ is Chunked ==> !ended,
        !(body@ is Chunked) ==> (ended <==> outcome == FramePoll::Ready(None)),
{
}

/// The bytes of a body can be counted unless its frames hold more than a `usize` can
/// count.
pub proof fn law_countable_bodies(body: RequestBody, countable: bool)
    requires
        call_ensures(RequestBody::is_countable, (&body,), countable),
    ensures
        countable <==> (body@ matches BodyState::Multi(frames) ==> frames.map_values(
            |b: Bytes| contents(b),
        ).flatten().len() <= usize::MAX),
{
    if let BodyState::Multi(frames) = body@ {
        assert(frames.map_values(|b: Bytes| contents(b)) =~= contents_of(frames));
    }
}

/// A poll of a body that is known yields the next of its buffers as it is, and
/// leaves the others.
pub proof fn law_poll_of_known_body(
    body: &mut RequestBody,
    cx: &mut Context<'_>,
    outcome: FramePoll,
)
    requires
        call_ensures(RequestBody::poll_frame, (body, cx), outcome),
    ensures
        old(body)@ matches BodyState::Multi(frames) ==> if frames.len() > 0 {
            &&& outcome matches Poll::Ready(Some(Ok(frame))) && frame_data(frame) == Some(frames[0])
            &&& final(body)@ matches BodyState::Multi(rest) && {
                &&& rest.len() == frames.len() - 1
                &&& forall|i: int| 0 <= i < rest.len() ==> #[trigger] rest[i] == frames[i + 1]
            }
        } else {
            outcome == FramePoll::Ready(None) && final(body)@ == old(body)@
        },
        old(body)@ matches BodyState::Full(bytes) ==> if contents(bytes).len() > 0 {
            &&& outcome matches Poll::Ready(Some(Ok(frame))) && frame_data(frame) == Some(bytes)
            &&& final(body)@ matches BodyState::Full(rest) && contents(rest).len() == 0
        } else {
            outcome == FramePoll::Ready(None) && final(body)@ == old(body)@
        },
{
}

/// A poll of a body that is sent while it comes into being yields the next message
/// of its channel: a chunk as the data frame that holds it, an abort as the failure
/// `aborted`. Where it yields neither, no message was taken.
pub proof fn law_poll_of_chunked_body(
    body: &mut RequestBody,
    cx: &mut Context<'_>,
    outcome: FramePoll,
    rx: Receiver<Message>,
    tx: Sender<Message>,
)
    requires
        call_ensures(RequestBody::poll_frame, (body, cx), outcome),
        old(body)@ == BodyState::Chunked(rx),
        connected(tx, rx),
    ensures
        final(body)@ matches BodyState::Chunked(later) && {
            &&& match outcome {
                Poll::Ready(Some(Ok(frame))) => frame_data(frame) matches Some(chunk) && received(
                    later,
                ) == received(rx).push(Message::Chunk(chunk)),
                Poll::Ready(Some(Err(reason))) => reason@ == "aborted"@ && received(later)
                    == received(rx).push(Message::Abort),
                Poll::Ready(None) => received(later) == received(rx) && finished(later)
                    && queue_order(tx).is_prefix_of(received(rx)),
                Poll::Pending => received(later) == received(rx) && !finished(later),
            }
            &&& agree(received(later), queue_order(tx))
            &&& finished(rx) ==> outcome == FramePoll::Ready(None)
            &&& !(outcome == FramePoll::Ready(None)) ==> connected(tx, later)
        },
{
}

/// Each message of the channel means one outcome of a poll.
pub proof fn law_message_and_frame(
    chunk: Bytes,
    of_chunk: FramePoll,
    of_abort: FramePoll,
    of_end: FramePoll,
    of_waiting: FramePoll,
)
    requires
        call_ensures(next_frame, (Poll::Ready(Some(Message::Chunk(chunk))),), of_chunk),
        call_ensures(next_frame, (Poll::Ready(Some(Message::Abort)),), of_abort),
        call_ensures(next_frame, (Poll::Ready(None::<Message>),), of_end),
        call_ensures(next_frame, (Poll::<Option<Message>>::Pending,), of_waiting),
    ensures
        of_chunk matches Poll::Ready(Some(Ok(frame))) && frame_data(frame) == Some(chunk),
        of_abort matches Poll::Ready(Some(Err(reason))) && reason@ == "aborted"@,
        of_end == FramePoll::Ready(None),
        of_waiting == FramePoll::Pending,
{
}

/// A new body that is sent while it comes into being, and its sender: nothing was
/// sent, nothing was received, the two belong together, and the sender has its slot
/// and no other.
pub proof fn law_new_channel_is_empty(
    ends: (ChunkSender, RequestBody),
    chunk: Bytes,
    outcome: SendOutcome,
    after: Sender<Message>,
    ready: Poll<bool>,
    asked_after: Sender<Message>,
)
    requires
        call_ensures(RequestBody::chunked, (), ends),
        tried(ends.0.0, chunk, outcome, after),
        asked(ends.0.0, ready, asked_after),
    ensures
        ends.1@ matches BodyState::Chunked(rx) && {
            &&& connected(ends.0.0, rx)
            &&& received(rx).len() == 0
            &&& !finished(rx)
        },
        accepted(ends.0.0).len() == 0,
        queue_order(ends.0.0).len() == 0,
        spare_slots(ends.0.0) == 0,
        !(outcome is Continue),
        !(ready is Pending),
        outcome == SendOutcome::Break(Ok(())) ==> accepted(after) == seq![Message::Chunk(chunk)]
            && (parked(after) || found_closed(after)),
{
    assert(Seq::<Message>::empty().push(Message::Chunk(chunk)) =~= seq![Message::Chunk(chunk)]);
}

/// A chunk is sent, or it comes back as it was given, or the channel is closed. One
/// that is sent is added behind what was there; otherwise nothing changes in the
/// channel.
pub proof fn law_chunk_is_sent_or_comes_back(
    sender: &mut ChunkSender,
    chunk: Bytes,
    outcome: SendOutcome,
)
    requires
        call_ensures(ChunkSender::try_send, (sender, chunk), outcome),
    ensures
        match outcome {
            ControlFlow::Continue(bytes) => {
                &&& bytes == chunk
                &&& contents(bytes) == contents(chunk)
                &&& accepted(final(sender).0) == accepted(old(sender).0)
                &&& queue_order(final(sender).0) == queue_order(old(sender).0)
                &&& parked(old(sender).0) && parked(final(sender).0)
            },
            ControlFlow::Break(Ok(())) => {
                &&& accepted(final(sender).0) == accepted(old(sender).0).push(Message::Chunk(chunk))
                &&& queue_order(old(sender).0).is_prefix_of(queue_order(final(sender).0))
                &&& queue_order(final(sender).0).len() > queue_order(old(sender).0).len()
                &&& queue_order(final(sender).0).last() == Message::Chunk(chunk)
                &&& !found_closed(old(sender).0)
            },
            ControlFlow::Break(Err(reason)) => {
                &&& reason@ == "channel closed"@
                &&& accepted(final(sender).0) == accepted(old(sender).0)
                &&& queue_order(final(sender).0) == queue_order(old(sender).0)
                &&& found_closed(final(sender).0)
            },
        },
        tried(old(sender).0, chunk, outcome, final(sender).0),
        forall|rx: Receiver<Message>|
            connected(final(sender).0, rx) == connected(old(sender).0, rx),
{
}

/// A chunk that comes back for want of room is the chunk that was given, byte for
/// byte.
pub proof fn law_refused_chunk_comes_back(
    before: Sender<Message>,
    chunk: Bytes,
    bytes: Bytes,
    after: Sender<Message>,
)
    requires
        tried(before, chunk, SendOutcome::Continue(bytes), after),
    ensures
        bytes == chunk,
        contents(bytes) == contents(chunk),
        accepted(after) == accepted(before),
        queue_order(after) == queue_order(before),
{
}

/// A chunk that came back for want of room, and was sent when it was tried again, is
/// yielded as it was first given.
pub proof fn law_refused_chunk_can_be_sent_again(
    before: Sender<Message>,
    chunk: Bytes,
    bytes: Bytes,
    between: Sender<Message>,
    after: Sender<Message>,
    states: Seq<BodyState>,
    outcomes: Seq<FramePoll>,
    rx: Receiver<Message>,
    place: int,
)
    requires
        tried(before, chunk, SendOutcome::Continue(bytes), between),
        tried(between, bytes, SendOutcome::Break(Ok(())), after),
        place == queue_order(after).len() - 1,
        is_run(states, outcomes),
        states[0] == BodyState::Chunked(rx),
        received(rx) == Seq::<Message>::empty(),
        !finished(rx),
        connected(before, rx),
    ensures
        place >= queue_order(before).len(),
        place < messages(outcomes).len() ==> messages(outcomes)[place] == Message::Chunk(chunk),
        outcomes.contains(FramePoll::Ready(None)) ==> place < messages(outcomes).len(),
{
    law_accepted_chunk_is_yielded(between, bytes, after, states, outcomes, rx, place);
}

/// Asking whether a chunk can be sent sends nothing. The answer yes leaves the sender
/// free to send, the answer no means that the channel is closed, and only a sender
/// whose slot is used up is kept waiting.
pub proof fn law_asking_sends_nothing(
    sender: &mut ChunkSender,
    cx: &mut Context<'_>,
    ready: Poll<bool>,
)
    requires
        call_ensures(ChunkSender::poll_ready, (sender, cx), ready),
    ensures
        accepted(final(sender).0) == accepted(old(sender).0),
        queue_order(final(sender).0) == queue_order(old(sender).0),
        ready == Poll::Ready(true) ==> !parked(final(sender).0) && !found_closed(final(sender).0),
        ready == Poll::Ready(false) <==> found_closed(final(sender).0),
        found_closed(old(sender).0) ==> ready == Poll::Ready(false),
        ready is Pending ==> parked(old(sender).0) && parked(final(sender).0),
        asked(old(sender).0, ready, final(sender).0),
        forall|rx: Receiver<Message>|
            connected(final(sender).0, rx) == connected(old(sender).0, rx),
{
}

/// An abort puts one message into the channel, behind what was there, or finds the
/// channel closed and puts nothing in. It goes through a handle of its own.
pub proof fn law_abort_is_one_message(
    sender: ChunkSender,
    sent: (Sender<Message>, Result<(), TrySendError<Message>>),
)
    requires
        call_ensures(ChunkSender::send_abort, (&sender,), sent),
    ensures
        sent.1 is Ok ==> {
            &&& accepted(sent.0) == seq![Message::Abort]
            &&& queue_order(sender.0).is_prefix_of(queue_order(sent.0))
            &&& queue_order(sent.0).len() > queue_order(sender.0).len()
            &&& queue_order(sent.0).last() == Message::Abort
        },
        sent.1 matches Err(error) ==> {
            &&& accepted(sent.0).len() == 0
            &&& queue_order(sent.0) == queue_order(sender.0)
            &&& !full(error)
            &&& unsent(error) == Message::Abort
            &&& found_closed(sent.0)
        },
        aborted(sender.0, sent),
        forall|rx: Receiver<Message>| connected(sent.0, rx) == connected(sender.0, rx),
{
}

/// To abort is to send that message through some handle of the same channel.
pub proof fn law_abort_sends_the_message(sender: ChunkSender)
    requires
        call_ensures(ChunkSender::abort, (&sender,), ()),
    ensures
        exists|sent: (Sender<Message>, Result<(), TrySendError<Message>>)|
            {
                &&& #[trigger] aborted(sender.0, sent)
                &&& sent.1 is Ok ==> accepted(sent.0) == seq![Message::Abort] && queue_order(
                    sent.0,
                ).last() == Message::Abort
                &&& sent.1 is Err ==> found_closed(sent.0)
                &&& forall|rx: Receiver<Message>| connected(sent.0, rx) == connected(sender.0, rx)
            },
{
    let sent = choose|sent: (Sender<Message>, Result<(), TrySendError<Message>>)| #[trigger]
        aborted(sender.0, sent);
    assert(aborted(sender.0, sent));
}

/// A sender passes on the answer of the channel: yes, never again, or not yet.
pub proof fn law_ready_answers(error: SendError, yes: Poll<bool>, no: Poll<bool>, wait: Poll<bool>)
    requires
        call_ensures(ready_answer, (Poll::Ready(Ok::<(), SendError>(())),), yes),
        call_ensures(ready_answer, (Poll::Ready(Err::<(), SendError>(error)),), no),
        call_ensures(ready_answer, (Poll::<Result<(), SendError>>::Pending,), wait),
    ensures
        yes == Poll::Ready(true),
        no == Poll::Ready(false),
        wait == Poll::<bool>::Pending,
{
}

/// A sender gets back the chunk that a full channel did not take, and is told of a
/// channel that is closed.
pub proof fn law_send_answers(
    chunk: Bytes,
    error: TrySendError<Message>,
    sent: SendOutcome,
    refused: SendOutcome,
)
    requires
        call_ensures(send_answer, (Ok::<(), TrySendError<Message>>(()),), sent),
        call_ensures(send_answer, (Err::<(), TrySendError<Message>>(error),), refused),
        unsent(error) == Message::Chunk(chunk),
    ensures
        sent == SendOutcome::Break(Ok(())),
        full(error) ==> refused == SendOutcome::Continue(chunk),
        !full(error) ==> (refused matches ControlFlow::Break(Err(reason)) && reason@
            == "channel closed"@),
{
}

/// A body can be made of any text and of any frames. Any body can be polled and asked
/// whether it has ended, and for its size wherever a `usize` can count its bytes. Any
/// chunk can be tried at any time.
pub proof fn law_every_call_is_taken(
    content: String,
    frames: Vec<Bytes>,
    body: &mut RequestBody,
    cx: &mut Context<'_>,
    known: RequestBody,
    countable: bool,
    sender: &mut ChunkSender,
    chunk: Bytes,
    next: Poll<Option<Message>>,
    answer: Poll<Result<(), SendError>>,
    aborting: ChunkSender,
)
    ensures
        call_requires(RequestBody::full, (content,)),
        call_requires(RequestBody::multi, (frames,)),
        call_requires(RequestBody::chunked, ()),
        call_requires(RequestBody::poll_frame, (body, cx)),
        call_requires(RequestBody::is_end_stream, (&known,)),
        call_requires(RequestBody::is_countable, (&known,)),
        call_ensures(RequestBody::is_countable, (&known,), countable) && countable
            ==> call_requires(RequestBody::size_hint, (&known,)),
        call_requires(ChunkSender::poll_ready, (sender, cx)),
        call_requires(ChunkSender::try_send, (sender, chunk)),
        call_requires(ChunkSender::send_abort, (&aborting,)),
        call_requires(ChunkSender::abort, (&aborting,)),
        call_requires(next_frame, (next,)),
        call_requires(ready_answer, (answer,)),
{
}

} // verus!
