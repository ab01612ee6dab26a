//! What holds of a body from its first poll to its last, and of the handles through
//! which one is sent.

use bytes::Bytes;
use core::ops::ControlFlow;
use futures_channel::mpsc::{Receiver, Sender, TrySendError};
use vstd::prelude::*;

use crate::external_data::is_table_name;
use crate::interop::buffer::contents;
use crate::interop::channel::{
    agree, connected, finished, found_closed, full, parked, put_in_last, queue_order, received,
    spare_slots,
};
use crate::interop::http::frame_data;
use crate::layout::{body_frames, contents_of, is_boundary_for, texts, Part};
use crate::read_back::{law_body_reads_back, read_body, sent_parts};
use crate::request_body::{
    aborted, asked, polled, tried, BodyState, FramePoll, Message, Poll, SendOutcome,
};

verus! {

/// A body is polled again and again: each poll takes it from one state to the
/// next.
pub open spec fn is_run(states: Seq<BodyState>, outcomes: Seq<FramePoll>) -> bool {
    &&& states.len() == outcomes.len() + 1
    &&& forall|i: int|
        0 <= i < outcomes.len() ==> polled(states[i], #[trigger] outcomes[i], states[i + 1])
}

/// The poll yields a data frame with this buffer.
pub open spec fn yields(outcome: FramePoll, buffer: Bytes) -> bool {
    outcome matches Poll::Ready(Some(Ok(frame))) && frame_data(frame) == Some(buffer)
}

/// The bytes that the polls yield, in a row.
pub open spec fn yielded(outcomes: Seq<FramePoll>) -> Seq<u8>
    decreases outcomes.len(),
{
    if outcomes.len() == 0 {
        Seq::empty()
    } else {
        yielded(outcomes.drop_last()) + (match outcomes.last() {
            Poll::Ready(Some(Ok(frame))) => match frame_data(frame) {
                Some(buffer) => contents(buffer),
                None => Seq::empty(),
            },
            _ => Seq::empty(),
        })
    }
}

/// The polls of a run but for the last one are a run.
proof fn lemma_run_without_last(states: Seq<BodyState>, outcomes: Seq<FramePoll>)
    requires
        is_run(states, outcomes),
        outcomes.len() > 0,
    ensures
        is_run(states.drop_last(), outcomes.drop_last()),
{
    let earlier = outcomes.drop_last();
    assert forall|i: int| 0 <= i < earlier.len() implies polled(
        states.drop_last()[i],
        #[trigger] earlier[i],
        states.drop_last()[i + 1],
    ) by {
        assert(polled(states[i], outcomes[i], states[i + 1]));
    }
}

/// The frames of a body come out in the order in which they were queued, each
/// as it is, and then the body has ended.
pub proof fn law_frames_in_order(
    states: Seq<BodyState>,
    outcomes: Seq<FramePoll>,
    frames: Seq<Bytes>,
    i: int,
)
    requires
        is_run(states, outcomes),
        states[0] == BodyState::Multi(frames),
        0 <= i < outcomes.len(),
    ensures
        i < frames.len() ==> yields(outcomes[i], frames[i]),
        i >= frames.len() ==> outcomes[i] == FramePoll::Ready(None),
{
    lemma_frames_left(states, outcomes, frames, i);
    assert(polled(states[i], outcomes[i], states[i + 1]));
}

/// After some polls the frames behind those that came out are left.
proof fn lemma_frames_left(
    states: Seq<BodyState>,
    outcomes: Seq<FramePoll>,
    frames: Seq<Bytes>,
    i: int,
)
    requires
        is_run(states, outcomes),
        states[0] == BodyState::Multi(frames),
        0 <= i < states.len(),
    ensures
        states[i] == BodyState::Multi(
            if i <= frames.len() {
                frames.skip(i)
            } else {
                Seq::empty()
            },
        ),
    decreases i,
{
    if i == 0 {
        assert(frames.skip(0) =~= frames);
    } else {
        lemma_frames_left(states, outcomes, frames, i - 1);
        assert(polled(states[i - 1], outcomes[i - 1], states[i]));
        if i <= frames.len() {
            assert(frames.skip(i - 1).drop_first() =~= frames.skip(i));
        } else if i - 1 == frames.len() {
            assert(frames.skip(i - 1) =~= Seq::empty());
        }
    }
}

/// A body that is known as a whole comes out in one frame, if it holds anything,
/// and then it has ended.
pub proof fn law_full_in_one_frame(
    states: Seq<BodyState>,
    outcomes: Seq<FramePoll>,
    bytes: Bytes,
    i: int,
)
    requires
        is_run(states, outcomes),
        states[0] == BodyState::Full(bytes),
        0 <= i < outcomes.len(),
    ensures
        i == 0 && contents(bytes).len() > 0 ==> yields(outcomes[0], bytes),
        i > 0 || contents(bytes).len() == 0 ==> outcomes[i] == FramePoll::Ready(None),
{
    assert(polled(states[i], outcomes[i], states[i + 1]));
    if i > 0 {
        lemma_full_left(states, outcomes, bytes, i);
    }
}

/// After one poll nothing is left of a body that was known as a whole.
proof fn lemma_full_left(
    states: Seq<BodyState>,
    outcomes: Seq<FramePoll>,
    bytes: Bytes,
    i: int,
)
    requires
        is_run(states, outcomes),
        states[0] == BodyState::Full(bytes),
        0 < i < states.len(),
    ensures
        states[i] matches BodyState::Full(rest) && contents(rest).len() == 0,
    decreases i,
{
    assert(polled(states[i - 1], outcomes[i - 1], states[i]));
    if i > 1 {
        lemma_full_left(states, outcomes, bytes, i - 1);
    }
}

/// What is known to remain shrinks by what a poll yields, so that the size that
/// a body reports stays exact.
pub proof fn law_remaining_shrinks(before: BodyState, outcome: FramePoll, after: BodyState)
    requires
        polled(before, outcome, after),
        !(before is Chunked),
    ensures
        !(after is Chunked),
        before.remaining() == yielded(seq![outcome]) + after.remaining(),
{
    assert(seq![outcome].drop_last() =~= Seq::empty());
    assert(yielded(seq![outcome].drop_last()) =~= Seq::<u8>::empty());
    match before {
        BodyState::Full(bytes) => {
            assert(before.remaining() =~= yielded(seq![outcome]) + after.remaining());
        },
        BodyState::Multi(frames) => {
            if frames.len() > 0 {
                assert(contents_of(frames).drop_first() =~= contents_of(frames.drop_first()));
            }
            assert(before.remaining() =~= yielded(seq![outcome]) + after.remaining());
        },
        BodyState::Chunked(_) => {},
    }
}

/// What some polls yield and what remains after them are the body: nothing is
/// lost, doubled or moved. Once such a body has ended, all of it was yielded.
pub proof fn law_body_is_delivered(states: Seq<BodyState>, outcomes: Seq<FramePoll>)
    requires
        is_run(states, outcomes),
        !(states[0] is Chunked),
    ensures
        !(states.last() is Chunked),
        states[0].remaining() == yielded(outcomes) + states.last().remaining(),
        states.last().is_ended() ==> yielded(outcomes) == states[0].remaining(),
    decreases outcomes.len(),
{
    if outcomes.len() == 0 {
        assert(states[0].remaining() =~= yielded(outcomes) + states.last().remaining());
    } else {
        let earlier = outcomes.drop_last();
        let n = earlier.len() as int;
        lemma_run_without_last(states, outcomes);
        law_body_is_delivered(states.drop_last(), earlier);
        assert(polled(states[n], outcomes[n], states[n + 1]));
        law_remaining_shrinks(states[n], outcomes[n], states[n + 1]);
        let one = seq![outcomes[n]];
        assert(one.drop_last() =~= Seq::empty());
        assert(yielded(one.drop_last()) =~= Seq::<u8>::empty());
        assert(yielded(outcomes) =~= yielded(earlier) + yielded(one));
        assert(states[0].remaining() =~= yielded(outcomes) + states.last().remaining());
    }
    if states.last().is_ended() {
        assert(states.last().remaining() =~= Seq::<u8>::empty());
        assert(yielded(outcomes) =~= states[0].remaining());
    }
}

/// A multipart body that was handed out to its end reads back as what was sent.
pub proof fn law_streamed_multipart_reads_back(
    states: Seq<BodyState>,
    outcomes: Seq<FramePoll>,
    frames: Seq<Bytes>,
    boundary: Seq<char>,
    query: Seq<char>,
    tables: Seq<Part>,
)
    requires
        is_run(states, outcomes),
        states[0] == BodyState::Multi(frames),
        states.last().is_ended(),
        contents_of(frames) == body_frames(boundary, query, tables),
        is_boundary_for(boundary, texts(query, tables)),
        forall|i: int| 0 <= i < tables.len() ==> is_table_name((#[trigger] tables[i]).name),
    ensures
        read_body(yielded(outcomes), boundary) == sent_parts(query, tables),
{
    law_body_is_delivered(states, outcomes);
    law_body_reads_back(boundary, query, tables);
}

/// The messages that some polls of a channel stand for.
pub open spec fn messages(outcomes: Seq<FramePoll>) -> Seq<Message>
    decreases outcomes.len(),
{
    if outcomes.len() == 0 {
        Seq::empty()
    } else {
        let earlier = messages(outcomes.drop_last());
        match outcomes.last() {
            Poll::Ready(Some(Ok(frame))) => earlier.push(Message::Chunk(frame_data(frame)->0)),
            Poll::Ready(Some(Err(_))) => earlier.push(Message::Abort),
            _ => earlier,
        }
    }
}

/// A body that is sent while it comes into being yields the chunks that its
/// channel hands out, each as it is and in that order, and fails where the
/// channel hands out an abort.
pub proof fn law_chunks_pass_unchanged(
    states: Seq<BodyState>,
    outcomes: Seq<FramePoll>,
    rx: Receiver<Message>,
)
    requires
        is_run(states, outcomes),
        states[0] == BodyState::Chunked(rx),
    ensures
        states.last() matches BodyState::Chunked(later) && received(later) == received(rx)
            + messages(outcomes),
    decreases outcomes.len(),
{
    if outcomes.len() == 0 {
        assert(received(rx) + messages(outcomes) =~= received(rx));
    } else {
        let earlier = outcomes.drop_last();
        let n = earlier.len() as int;
        lemma_run_without_last(states, outcomes);
        law_chunks_pass_unchanged(states.drop_last(), earlier, rx);
        assert(polled(states[n], outcomes[n], states[n + 1]));
        let later = states.last()->Chunked_0;
        assert(received(later) =~= received(rx) + messages(outcomes));
    }
}

/// What holds after some polls of a new body that is sent while it comes into
/// being.
proof fn lemma_chunks_so_far(
    states: Seq<BodyState>,
    outcomes: Seq<FramePoll>,
    rx: Receiver<Message>,
)
    requires
        is_run(states, outcomes),
        states[0] == BodyState::Chunked(rx),
        received(rx) == Seq::<Message>::empty(),
        !finished(rx),
    ensures
        states.last() matches BodyState::Chunked(later) && {
            &&& received(later) == messages(outcomes)
            &&& finished(later) <==> outcomes.contains(FramePoll::Ready(None))
            &&& !finished(later) ==> forall|tx: Sender<Message>|
                connected(tx, later) == connected(tx, rx)
        },
        forall|tx: Sender<Message>|
            connected(tx, rx) ==> agree(messages(outcomes), #[trigger] queue_order(tx)),
        outcomes.contains(FramePoll::Ready(None)) ==> forall|tx: Sender<Message>|
            connected(tx, rx) ==> #[trigger] queue_order(tx).is_prefix_of(messages(outcomes)),
    decreases outcomes.len(),
{
    if outcomes.len() == 0 {
        assert forall|tx: Sender<Message>| connected(tx, rx) implies agree(
            messages(outcomes),
            #[trigger] queue_order(tx),
        ) by {
            assert(messages(outcomes).is_prefix_of(queue_order(tx)));
        }
    } else {
        let n = outcomes.len() - 1;
        let earlier = outcomes.drop_last();
        lemma_run_without_last(states, outcomes);
        lemma_chunks_so_far(states.drop_last(), earlier, rx);
        law_chunks_pass_unchanged(states, outcomes, rx);
        assert(polled(states[n], outcomes[n], states[n + 1]));
        let before = states[n]->Chunked_0;
        let after = states[n + 1]->Chunked_0;
        assert(received(after) =~= messages(outcomes));
        if earlier.contains(FramePoll::Ready(None)) {
            let i = choose|i: int| 0 <= i < earlier.len() && earlier[i] == FramePoll::Ready(None);
            assert(outcomes[i] == FramePoll::Ready(None));
        } else {
            assert forall|i: int|
                0 <= i < outcomes.len() && outcomes[i] == FramePoll::Ready(None) implies i == n by {
                if i < n {
                    assert(earlier[i] == outcomes[i]);
                }
            }
            assert forall|tx: Sender<Message>| connected(tx, rx) implies agree(
                messages(outcomes),
                #[trigger] queue_order(tx),
            ) by {
                assert(connected(tx, before));
            }
            if finished(after) {
                assert(outcomes[n] == FramePoll::Ready(None));
                assert forall|tx: Sender<Message>| connected(tx, rx) implies #[trigger] queue_order(
                    tx,
                ).is_prefix_of(messages(outcomes)) by {
                    assert(connected(tx, before));
                }
            }
        }
    }
}

/// What a new body yields that is sent while it comes into being, and what any
/// handle of its channel knows to have been put in, are in one order: no chunk is
/// skipped, doubled, changed or moved. Once the body has ended, nothing that was
/// put in is left.
pub proof fn law_chunks_come_in_order(
    states: Seq<BodyState>,
    outcomes: Seq<FramePoll>,
    rx: Receiver<Message>,
    tx: Sender<Message>,
)
    requires
        is_run(states, outcomes),
        states[0] == BodyState::Chunked(rx),
        received(rx) == Seq::<Message>::empty(),
        !finished(rx),
        connected(tx, rx),
    ensures
        agree(messages(outcomes), queue_order(tx)),
        outcomes.contains(FramePoll::Ready(None)) ==> queue_order(tx).is_prefix_of(
            messages(outcomes),
        ),
{
    lemma_chunks_so_far(states, outcomes, rx);
}

/// Whatever a new body yields that is sent while it comes into being was put in
/// through a handle of its channel, behind all that the body has yielded before.
pub proof fn law_chunks_were_put_in(
    states: Seq<BodyState>,
    outcomes: Seq<FramePoll>,
    rx: Receiver<Message>,
    k: int,
)
    requires
        is_run(states, outcomes),
        states[0] == BodyState::Chunked(rx),
        received(rx) == Seq::<Message>::empty(),
        !finished(rx),
        0 <= k < messages(outcomes).len(),
    ensures
        exists|tx: Sender<Message>|
            connected(tx, rx) && #[trigger] put_in_last(tx, messages(outcomes).take(k + 1)),
    decreases outcomes.len(),
{
    let n = outcomes.len() - 1;
    let earlier = outcomes.drop_last();
    lemma_run_without_last(states, outcomes);
    lemma_chunks_so_far(states.drop_last(), earlier, rx);
    lemma_chunks_so_far(states, outcomes, rx);
    assert(polled(states[n], outcomes[n], states[n + 1]));
    if k < messages(earlier).len() {
        law_chunks_were_put_in(states.drop_last(), earlier, rx, k);
        assert(messages(outcomes).take(k + 1) =~= messages(earlier).take(k + 1));
    } else {
        assert(messages(outcomes).take(k + 1) =~= messages(outcomes));
        let tx = choose|tx: Sender<Message>|
            connected(tx, states[n]->Chunked_0) && #[trigger] put_in_last(tx, messages(outcomes));
        assert(connected(tx, rx));
        assert(put_in_last(tx, messages(outcomes).take(k + 1)));
    }
}

/// A chunk that was accepted has its place behind everything that its sender knows
/// to have been put in before. At that place the body yields it, and only once:
/// once the body has ended, it has come to that place.
pub proof fn law_accepted_chunk_is_yielded(
    before: Sender<Message>,
    chunk: Bytes,
    after: Sender<Message>,
    states: Seq<BodyState>,
    outcomes: Seq<FramePoll>,
    rx: Receiver<Message>,
    place: int,
)
    requires
        tried(before, chunk, SendOutcome::Break(Ok(())), after),
        place == queue_order(after).len() - 1,
        is_run(states, outcomes),
        states[0] == BodyState::Chunked(rx),
        received(rx) == Seq::<Message>::empty(),
        !finished(rx),
        connected(after, rx),
    ensures
        place >= queue_order(before).len(),
        place < messages(outcomes).len() ==> messages(outcomes)[place] == Message::Chunk(chunk),
        outcomes.contains(FramePoll::Ready(None)) ==> place < messages(outcomes).len(),
{
    law_chunks_come_in_order(states, outcomes, rx, after);
    assert(queue_order(after)[place] == Message::Chunk(chunk));
}

/// Two chunks that one sender has sent, the one after the other, keep their order:
/// the later one has its place behind that of the earlier one.
pub proof fn law_accepted_chunks_keep_their_order(
    before: Sender<Message>,
    earlier: Bytes,
    between: Sender<Message>,
    later: Bytes,
    after: Sender<Message>,
)
    requires
        tried(before, earlier, SendOutcome::Break(Ok(())), between),
        tried(between, later, SendOutcome::Break(Ok(())), after),
    ensures
        queue_order(between).len() < queue_order(after).len(),
        queue_order(after)[queue_order(between).len() - 1] == Message::Chunk(earlier),
        queue_order(after)[queue_order(after).len() - 1] == Message::Chunk(later),
{
    let place = queue_order(between).len() - 1;
    assert(queue_order(between)[place] == Message::Chunk(earlier));
    assert(queue_order(after).take(queue_order(between).len() as int)[place] == queue_order(
        after,
    )[place]);
}

/// An abort comes behind everything that its sender knows to have been put in:
/// where the body has come to it, the body has yielded all of that before.
pub proof fn law_abort_comes_behind(
    before: Sender<Message>,
    sent: (Sender<Message>, Result<(), TrySendError<Message>>),
    states: Seq<BodyState>,
    outcomes: Seq<FramePoll>,
    rx: Receiver<Message>,
    place: int,
)
    requires
        aborted(before, sent),
        sent.1 is Ok,
        place == queue_order(sent.0).len() - 1,
        is_run(states, outcomes),
        states[0] == BodyState::Chunked(rx),
        received(rx) == Seq::<Message>::empty(),
        !finished(rx),
        connected(before, rx),
    ensures
        place >= queue_order(before).len(),
        place < messages(outcomes).len() ==> {
            &&& messages(outcomes)[place] == Message::Abort
            &&& queue_order(before).is_prefix_of(messages(outcomes).take(place))
        },
        outcomes.contains(FramePoll::Ready(None)) ==> place < messages(outcomes).len(),
{
    law_chunks_come_in_order(states, outcomes, rx, sent.0);
    assert(queue_order(sent.0)[place] == Message::Abort);
    if place < messages(outcomes).len() {
        let known = queue_order(before).len() as int;
        assert(messages(outcomes).take(place).take(known) =~= queue_order(sent.0).take(known));
        assert(queue_order(sent.0).take(known) =~= queue_order(before));
    }
}

/// An abort is never refused for want of room. Where its sender has found the
/// channel closed, it changes nothing.
pub proof fn law_abort_needs_no_room(
    before: Sender<Message>,
    sent: (Sender<Message>, Result<(), TrySendError<Message>>),
)
    requires
        aborted(before, sent),
    ensures
        sent.1 matches Err(error) ==> !full(error) && found_closed(sent.0),
        found_closed(before) ==> sent.1 is Err && queue_order(sent.0) == queue_order(before),
{
}

/// A sender has one slot at a time: the channel of a body has no others, so that
/// a chunk that was accepted leaves its sender parked, unless the channel was
/// closed. A sender that was refused for want of room stays parked.
pub proof fn law_used_slot_parks(
    before: Sender<Message>,
    chunk: Bytes,
    outcome: SendOutcome,
    after: Sender<Message>,
)
    requires
        spare_slots(before) == 0,
        tried(before, chunk, outcome, after),
    ensures
        outcome == SendOutcome::Break(Ok(())) ==> parked(after) || found_closed(after),
        outcome is Continue ==> parked(before) && parked(after),
        outcome matches ControlFlow::Break(Err(_)) ==> !parked(after) && found_closed(after),
        spare_slots(after) == 0,
{
}

/// A body that says it has ended yields nothing more.
pub proof fn law_ended_body_yields_nothing(
    before: BodyState,
    outcome: FramePoll,
    after: BodyState,
)
    requires
        polled(before, outcome, after),
        before.is_ended(),
    ensures
        outcome == FramePoll::Ready(None),
        after == before,
{
}

/// A body that is known, as a whole or by its frames, and has not ended yields a
/// frame: it never keeps its reader waiting and never fails.
pub proof fn law_known_body_never_waits(
    before: BodyState,
    outcome: FramePoll,
    after: BodyState,
)
    requires
        polled(before, outcome, after),
        !(before is Chunked),
        !before.is_ended(),
    ensures
        outcome matches Poll::Ready(Some(Ok(_))),
{
}

/// The end of a body is final: after it has ended once it yields nothing more,
/// whatever kind of body it is.
pub proof fn law_end_is_final(
    before: BodyState,
    after: BodyState,
    outcome: FramePoll,
    later: BodyState,
)
    requires
        polled(before, FramePoll::Ready(None), after),
        polled(after, outcome, later),
    ensures
        outcome == FramePoll::Ready(None),
{
}

/// A sender that was told it can send is not told to try again.
pub proof fn law_ready_sender_is_not_refused(
    before: Sender<Message>,
    ready: Sender<Message>,
    chunk: Bytes,
    outcome: SendOutcome,
    after: Sender<Message>,
)
    requires
        asked(before, Poll::Ready(true), ready),
        tried(ready, chunk, outcome, after),
    ensures
        !(outcome is Continue),
{
}

/// A sender that was told the channel is closed, when it asked or when it tried,
/// is told so whenever it asks again, and sends nothing more. Unless it waits for a
/// slot, it is told so whenever it tries again too.
pub proof fn law_closed_is_final(
    told: Sender<Message>,
    ready: Poll<bool>,
    asked_again: Sender<Message>,
    chunk: Bytes,
    outcome: SendOutcome,
    tried_again: Sender<Message>,
)
    requires
        found_closed(told),
        asked(told, ready, asked_again),
        tried(told, chunk, outcome, tried_again),
    ensures
        ready == Poll::Ready(false),
        found_closed(asked_again),
        outcome != SendOutcome::Break(Ok(())),
        !parked(told) ==> outcome matches ControlFlow::Break(Err(_)),
        found_closed(tried_again),
{
}

/// Each sender has a guaranteed slot: one that has not used it is not kept
/// waiting when it asks.
pub proof fn law_free_sender_is_not_kept_waiting(
    fresh: Sender<Message>,
    ready: Poll<bool>,
    after: Sender<Message>,
)
    requires
        !parked(fresh),
        asked(fresh, ready, after),
    ensures
        !(ready is Pending),
{
}

/// Each sender has a guaranteed slot: the first chunk of a new one is not
/// refused for want of room.
pub proof fn law_new_sender_has_a_slot(
    fresh: Sender<Message>,
    chunk: Bytes,
    outcome: SendOutcome,
    after: Sender<Message>,
)
    requires
        !parked(fresh),
        tried(fresh, chunk, outcome, after),
    ensures
        !(outcome is Continue),
{
}

} // verus!
