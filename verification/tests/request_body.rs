use bytes::Bytes;
use clickhouse::external_data::{build_multipart, ExternalTable};
use clickhouse::request_body::{
    next_frame, ready_answer, send_answer, ChunkSender, FramePoll, Message, Poll, RequestBody,
};
use std::ops::ControlFlow;
use std::sync::atomic::{AtomicUsize, Ordering};
use std::sync::Arc;
use std::task::{Context, Wake, Waker};

fn poll(body: &mut RequestBody) -> FramePoll {
    let mut cx = Context::from_waker(Waker::noop());
    body.poll_frame(&mut cx)
}

fn data(outcome: FramePoll) -> Bytes {
    match outcome {
        Poll::Ready(Some(Ok(frame))) => frame.into_data().ok().unwrap(),
        other => panic!("no data frame: {:?}", other),
    }
}

fn is_end(outcome: FramePoll) -> bool {
    matches!(outcome, Poll::Ready(None))
}

fn drain(mut body: RequestBody) -> Vec<Bytes> {
    let mut out = vec![];
    loop {
        match poll(&mut body) {
            Poll::Ready(Some(Ok(frame))) => {
                out.push(frame.into_data().expect("multi yields only data frames"))
            }
            Poll::Ready(None) => break,
            Poll::Ready(Some(Err(_))) => panic!("multi must not yield an error"),
            Poll::Pending => panic!("multi must never be pending"),
        }
    }
    out
}

#[test]
fn multi_yields_frames_in_order() {
    let frames = [
        Bytes::from_static(b"a"),
        Bytes::from_static(b"bb"),
        Bytes::from_static(b"ccc"),
    ];
    let got = drain(RequestBody::multi(frames.to_vec()));
    assert_eq!(
        got, frames,
        "frames must come out in the order they were queued"
    );
}

#[test]
fn multi_size_hint_and_end_stream() {
    let frames = [Bytes::from_static(b"a"), Bytes::from_static(b"bb")];
    let body = RequestBody::multi(frames.to_vec());

    assert_eq!(
        body.size_hint().exact(),
        Some(3),
        "size hint must sum the frame lengths"
    );
    assert!(
        !body.is_end_stream(),
        "must not report end while frames are queued"
    );

    assert!(drain(body).len() == 2, "both frames must be yielded");
    assert!(
        RequestBody::multi(vec![]).is_end_stream(),
        "an empty multi body reports end of stream"
    );
}

#[test]
fn full_body_comes_in_one_frame() {
    let mut body = RequestBody::full(String::from("SELECT '\u{e4}'"));
    assert!(!body.is_end_stream());
    assert_eq!(body.size_hint().exact(), Some(11));
    assert_eq!(&data(poll(&mut body))[..], "SELECT '\u{e4}'".as_bytes());
    assert!(body.is_end_stream());
    assert_eq!(body.size_hint().exact(), Some(0));
    assert!(is_end(poll(&mut body)));
    assert!(is_end(poll(&mut body)));
}

#[test]
fn empty_full_body_has_no_frame() {
    let mut body = RequestBody::full(String::new());
    assert!(body.is_end_stream());
    assert_eq!(body.size_hint().exact(), Some(0));
    assert!(is_end(poll(&mut body)));
}

#[test]
fn size_shrinks_by_what_was_yielded() {
    let frames = ["a", "", "ccc"].map(Bytes::from).to_vec();
    let mut body = RequestBody::multi(frames);
    assert!(body.is_countable());
    assert_eq!(body.size_hint().exact(), Some(4));
    assert_eq!(data(poll(&mut body)), "a");
    assert_eq!(body.size_hint().exact(), Some(3));
    // An empty frame is a frame.
    assert!(!body.is_end_stream());
    assert_eq!(data(poll(&mut body)), "");
    assert_eq!(body.size_hint().exact(), Some(3));
    assert_eq!(data(poll(&mut body)), "ccc");
    assert_eq!(body.size_hint().exact(), Some(0));
    assert!(body.is_end_stream());
    assert!(is_end(poll(&mut body)));
    assert!(is_end(poll(&mut body)));
}

#[test]
fn frames_are_handed_out_without_a_copy() {
    let frame = Bytes::from(vec![1u8; 10]);
    let mut body = RequestBody::multi(vec![frame.clone()]);
    assert_eq!(data(poll(&mut body)).as_ptr(), frame.as_ptr());
}

#[test]
fn multipart_streams_to_what_it_joins_to() {
    let table = ExternalTable::new("t", "1\n2\n", "c UInt8").ok().unwrap();
    let mp = build_multipart("SELECT 1", std::slice::from_ref(&table));
    let length = mp.content_length();
    let whole: Vec<u8> = mp.frames.iter().flatten().copied().collect();
    let body = RequestBody::multi(mp.frames);
    assert_eq!(body.size_hint().exact(), Some(length as u64));
    let got: Vec<u8> = drain(body).iter().flatten().copied().collect();
    assert_eq!(got, whole);
}

#[test]
fn sizes_are_countable() {
    let frame = Bytes::from(vec![0u8; 1 << 20]);
    let body = RequestBody::multi(vec![frame; 1 << 10]);
    assert!(body.is_countable());
    assert_eq!(body.size_hint().exact(), Some(1 << 30));
    let (_sender, body) = RequestBody::chunked();
    assert!(body.is_countable());
    assert!(RequestBody::full(String::from("x")).is_countable());
}

#[test]
fn chunks_pass_unchanged() {
    let (mut sender, mut body) = RequestBody::chunked();
    assert!(!body.is_end_stream());
    assert_eq!(body.size_hint().exact(), None);
    assert_eq!(body.size_hint().lower(), 0);
    assert_eq!(body.size_hint().upper(), None);
    assert!(matches!(poll(&mut body), Poll::Pending));

    let chunk = Bytes::from(vec![5u8; 8]);
    assert_eq!(
        sender.try_send(chunk.clone()),
        ControlFlow::Break(Ok(())),
        "a new sender has a slot"
    );
    assert_eq!(data(poll(&mut body)).as_ptr(), chunk.as_ptr());
    assert!(matches!(poll(&mut body), Poll::Pending));
    drop(sender);
    assert!(is_end(poll(&mut body)));
    assert!(is_end(poll(&mut body)), "the end is final");
    assert!(!body.is_end_stream());
}

#[test]
fn chunk_comes_back_where_there_is_no_room() {
    let mut cx = Context::from_waker(Waker::noop());
    let (mut sender, mut body) = RequestBody::chunked();
    assert!(matches!(sender.poll_ready(&mut cx), Poll::Ready(true)));
    assert_eq!(sender.try_send(Bytes::from("1")), ControlFlow::Break(Ok(())));
    assert!(matches!(sender.poll_ready(&mut cx), Poll::Pending));
    assert_eq!(
        sender.try_send(Bytes::from("2")),
        ControlFlow::Continue(Bytes::from("2"))
    );
    assert_eq!(data(poll(&mut body)), "1");
    assert!(matches!(sender.poll_ready(&mut cx), Poll::Ready(true)));
    assert_eq!(sender.try_send(Bytes::from("2")), ControlFlow::Break(Ok(())));
    assert_eq!(data(poll(&mut body)), "2");
}

#[test]
fn closed_channel_is_reported() {
    let mut cx = Context::from_waker(Waker::noop());
    let (mut sender, body) = RequestBody::chunked();
    drop(body);
    assert!(matches!(sender.poll_ready(&mut cx), Poll::Ready(false)));
    assert_eq!(
        sender.try_send(Bytes::from("1")),
        ControlFlow::Break(Err("channel closed"))
    );
    // There is nobody to tell.
    sender.abort();
    let (_, refused) = sender.send_abort();
    let refused = refused.unwrap_err();
    assert!(refused.is_disconnected());
    assert!(matches!(refused.into_inner(), Message::Abort));
}

#[test]
fn closed_channel_stays_closed() {
    let mut cx = Context::from_waker(Waker::noop());
    // Told when it asks.
    let (mut sender, body) = RequestBody::chunked();
    assert!(matches!(sender.poll_ready(&mut cx), Poll::Ready(true)));
    drop(body);
    assert!(matches!(sender.poll_ready(&mut cx), Poll::Ready(false)));
    assert!(matches!(sender.poll_ready(&mut cx), Poll::Ready(false)));
    assert_eq!(
        sender.try_send(Bytes::from("1")),
        ControlFlow::Break(Err("channel closed"))
    );
    // Told when it tries, after its slot was used up.
    let (mut sender, body) = RequestBody::chunked();
    assert_eq!(sender.try_send(Bytes::from("1")), ControlFlow::Break(Ok(())));
    assert!(matches!(sender.poll_ready(&mut cx), Poll::Pending));
    assert!(matches!(sender.poll_ready(&mut cx), Poll::Pending));
    drop(body);
    assert_eq!(
        sender.try_send(Bytes::from("2")),
        ControlFlow::Break(Err("channel closed"))
    );
    assert!(matches!(sender.poll_ready(&mut cx), Poll::Ready(false)));
    assert!(sender.send_abort().1.is_err());
}

#[test]
fn abort_gets_through_a_full_channel() {
    let (mut sender, mut body) = RequestBody::chunked();
    assert_eq!(sender.try_send(Bytes::from("1")), ControlFlow::Break(Ok(())));
    assert!(sender.try_send(Bytes::from("2")).is_continue());
    sender.abort();
    assert_eq!(data(poll(&mut body)), "1");
    assert!(matches!(
        poll(&mut body),
        Poll::Ready(Some(Err("aborted")))
    ));
    assert!(matches!(poll(&mut body), Poll::Pending));
}

#[test]
fn channels_are_apart() {
    let (mut first, mut first_body) = RequestBody::chunked();
    let (_second, mut second_body) = RequestBody::chunked();
    assert_eq!(first.try_send(Bytes::from("1")), ControlFlow::Break(Ok(())));
    assert!(matches!(poll(&mut second_body), Poll::Pending));
    assert_eq!(data(poll(&mut first_body)), "1");
    let (handle, sent) = first.send_abort();
    assert!(sent.is_ok());
    assert!(handle.same_receiver(&first.0));
}

#[test]
fn each_message_has_its_frame() {
    let outcome = next_frame(Poll::Ready(Some(Message::Chunk(Bytes::from("x")))));
    assert_eq!(data(outcome), "x");
    assert!(matches!(
        next_frame(Poll::Ready(Some(Message::Abort))),
        Poll::Ready(Some(Err("aborted")))
    ));
    assert!(is_end(next_frame(Poll::Ready(None))));
    assert!(matches!(next_frame(Poll::Pending), Poll::Pending));
}

#[test]
fn each_channel_answer_has_its_meaning() {
    assert!(matches!(ready_answer(Poll::Ready(Ok(()))), Poll::Ready(true)));
    assert!(matches!(ready_answer(Poll::Pending), Poll::Pending));
    assert_eq!(send_answer(Ok(())), ControlFlow::Break(Ok(())));

    let (mut sender, body) = RequestBody::chunked();
    let first = sender.0.try_send(Message::Chunk(Bytes::from("1")));
    assert!(first.is_ok());
    let full = sender.0.try_send(Message::Chunk(Bytes::from("2")));
    assert_eq!(send_answer(full), ControlFlow::Continue(Bytes::from("2")));
    drop(body);
    let (mut sender, body) = RequestBody::chunked();
    drop(body);
    let closed = sender.0.try_send(Message::Chunk(Bytes::from("3")));
    assert_eq!(
        send_answer(closed),
        ControlFlow::Break(Err("channel closed"))
    );
    let gone = sender.0.start_send(Message::Abort).unwrap_err();
    assert!(matches!(
        ready_answer(Poll::Ready(Err(gone))),
        Poll::Ready(false)
    ));
}

#[test]
fn chunks_come_in_the_order_in_which_they_were_accepted() {
    let (mut sender, mut body) = RequestBody::chunked();
    let mut second = ChunkSender(sender.0.clone());
    let mut third = ChunkSender(sender.0.clone());
    assert_eq!(second.try_send(Bytes::from("1")), ControlFlow::Break(Ok(())));
    assert_eq!(sender.try_send(Bytes::from("2")), ControlFlow::Break(Ok(())));
    assert_eq!(third.try_send(Bytes::from("3")), ControlFlow::Break(Ok(())));
    assert!(sender.try_send(Bytes::from("refused")).is_continue());
    assert_eq!(data(poll(&mut body)), "1");
    assert_eq!(second.try_send(Bytes::from("4")), ControlFlow::Break(Ok(())));
    drop(second);
    drop(third);
    assert_eq!(data(poll(&mut body)), "2");
    assert_eq!(sender.try_send(Bytes::from("5")), ControlFlow::Break(Ok(())));
    drop(sender);
    // What was accepted comes out though nobody can send any more, and then the end.
    for chunk in ["3", "4", "5"] {
        assert_eq!(data(poll(&mut body)), chunk);
    }
    assert!(is_end(poll(&mut body)));
}

#[test]
fn each_sender_has_one_slot() {
    let mut cx = Context::from_waker(Waker::noop());
    let (sender, mut body) = RequestBody::chunked();
    let mut senders: Vec<ChunkSender> = vec![];
    for _ in 0..5 {
        senders.push(ChunkSender(sender.0.clone()));
    }
    for sender in &mut senders {
        assert_eq!(sender.try_send(Bytes::from("x")), ControlFlow::Break(Ok(())));
        assert!(matches!(sender.poll_ready(&mut cx), Poll::Pending));
        assert!(sender.try_send(Bytes::from("y")).is_continue());
        assert!(sender.try_send(Bytes::from("y")).is_continue());
        assert!(matches!(sender.poll_ready(&mut cx), Poll::Pending));
    }
    // Each chunk that is taken out frees the sender that has waited longest.
    for sender in &mut senders {
        assert!(matches!(sender.poll_ready(&mut cx), Poll::Pending));
        assert_eq!(data(poll(&mut body)), "x");
        assert!(matches!(sender.poll_ready(&mut cx), Poll::Ready(true)));
    }
}

#[test]
fn abort_comes_behind_what_was_accepted() {
    let (mut sender, mut body) = RequestBody::chunked();
    let mut other = ChunkSender(sender.0.clone());
    assert_eq!(other.try_send(Bytes::from("1")), ControlFlow::Break(Ok(())));
    assert_eq!(sender.try_send(Bytes::from("2")), ControlFlow::Break(Ok(())));
    let (handle, sent) = sender.send_abort();
    assert!(sent.is_ok());
    drop(handle);
    drop(other);
    drop(sender);
    assert_eq!(data(poll(&mut body)), "1");
    assert_eq!(data(poll(&mut body)), "2");
    assert!(matches!(
        poll(&mut body),
        Poll::Ready(Some(Err("aborted")))
    ));
    assert!(is_end(poll(&mut body)));
}

#[test]
fn abort_leaves_its_sender_as_it_is() {
    let mut cx = Context::from_waker(Waker::noop());
    let (mut sender, mut body) = RequestBody::chunked();
    sender.abort();
    assert!(matches!(sender.poll_ready(&mut cx), Poll::Ready(true)));
    assert_eq!(sender.try_send(Bytes::from("1")), ControlFlow::Break(Ok(())));
    assert!(matches!(
        poll(&mut body),
        Poll::Ready(Some(Err("aborted")))
    ));
    assert_eq!(data(poll(&mut body)), "1");
}

/// Counts how often it is woken.
struct Alarm(AtomicUsize);

impl Wake for Alarm {
    fn wake(self: Arc<Self>) {
        self.0.fetch_add(1, Ordering::SeqCst);
    }
}

#[test]
fn who_waits_is_woken() {
    let reader = Arc::new(Alarm(AtomicUsize::new(0)));
    let writer = Arc::new(Alarm(AtomicUsize::new(0)));
    let reader_waker = Waker::from(reader.clone());
    let writer_waker = Waker::from(writer.clone());
    let mut reader_cx = Context::from_waker(&reader_waker);
    let mut writer_cx = Context::from_waker(&writer_waker);
    let (mut sender, mut body) = RequestBody::chunked();
    // The reader waits for a chunk.
    assert!(matches!(body.poll_frame(&mut reader_cx), Poll::Pending));
    assert_eq!(reader.0.load(Ordering::SeqCst), 0);
    assert_eq!(sender.try_send(Bytes::from("1")), ControlFlow::Break(Ok(())));
    assert_eq!(reader.0.load(Ordering::SeqCst), 1);
    // The writer waits for room.
    assert!(matches!(sender.poll_ready(&mut writer_cx), Poll::Pending));
    assert_eq!(writer.0.load(Ordering::SeqCst), 0);
    assert_eq!(data(body.poll_frame(&mut reader_cx)), "1");
    assert_eq!(writer.0.load(Ordering::SeqCst), 1);
    // The reader waits for the end.
    assert!(matches!(body.poll_frame(&mut reader_cx), Poll::Pending));
    drop(sender);
    assert_eq!(reader.0.load(Ordering::SeqCst), 2);
    assert!(is_end(body.poll_frame(&mut reader_cx)));
}
