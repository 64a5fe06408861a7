use async_sse::{
    decode_bytes, encode, handed_over, unless_disconnected, Encoder, Error, Event, Fetched,
    Offered, Sender,
};
use std::time::Duration;

/// Assert a Message.
fn assert_message(event: &Event, name: &str, data: &str, id: Option<&'static str>) {
    assert!(event.is_message());
    if let Event::Message(msg) = event {
        assert_eq!(msg.id(), &id.map(|s| s.to_owned()));
        assert_eq!(msg.name(), name);
        assert_eq!(
            String::from_utf8(msg.data().to_owned()).unwrap(),
            String::from_utf8(data.as_bytes().to_owned()).unwrap()
        );
    }
}

/// Assert a Message.
fn assert_retry(event: &Event, dur: u64) {
    assert!(event.is_retry());
    let expected = Duration::from_secs_f64(dur as f64);
    if let Event::Retry(dur) = event {
        assert_eq!(dur, &expected);
    }
}

/// Reads what the encoder can give now, through a small buffer.
fn read_available(encoder: &mut Encoder, wire: &mut Vec<u8>) {
    let mut buf = [0u8; 7];
    loop {
        match encoder.read(&mut buf) {
            Some(0) => panic!("the stream has ended"),
            Some(n) => wire.extend_from_slice(&buf[..n]),
            None => break,
        }
    }
}

/// Hands the chunks over through the queue, and reads them on the other
/// side.
fn pass(sender: &Sender, encoder: &mut Encoder, chunks: Vec<Vec<u8>>) -> Vec<u8> {
    let mut wire = Vec::new();
    for chunk in chunks {
        assert_eq!(sender.try_send(chunk), Ok(None));
        read_available(encoder, &mut wire);
    }
    wire
}

#[test]
fn encode_message() {
    let (sender, mut encoder) = encode();
    let chunks = sender.send("cat", "chashu", None).unwrap();
    let buf = pass(&sender, &mut encoder, chunks);

    let mut reader = decode_bytes(&buf).into_iter();
    let event = reader.next().unwrap().unwrap();
    assert_message(&event, "cat", "chashu", None);
}

#[test]
fn encode_message_with_id() {
    let (sender, mut encoder) = encode();
    let chunks = sender.send("cat", "chashu", Some("0")).unwrap();
    let buf = pass(&sender, &mut encoder, chunks);

    let mut reader = decode_bytes(&buf).into_iter();
    let event = reader.next().unwrap().unwrap();
    assert_message(&event, "cat", "chashu", Some("0"));
}

#[test]
fn encode_retry() {
    let (sender, mut encoder) = encode();
    let chunks = sender.send_retry(Duration::from_secs(12), None).unwrap();
    let buf = pass(&sender, &mut encoder, chunks);

    let mut reader = decode_bytes(&buf).into_iter();
    let event = reader.next().unwrap().unwrap();
    assert_retry(&event, 12);
}

#[test]
fn message_on_the_wire() {
    assert_eq!(
        async_sse::encode_message("cat", "chashu", None),
        vec![b"event:cat\n".to_vec(), b"data:chashu\n\n".to_vec()]
    );
    assert_eq!(
        async_sse::encode_message("cat", "chashu", Some("0")),
        vec![b"event:cat\n".to_vec(), b"id:0\n".to_vec(), b"data:chashu\n\n".to_vec()]
    );
    assert_eq!(
        async_sse::encode_message("", "", Some("")),
        vec![b"event:\n".to_vec(), b"id:\n".to_vec(), b"data:\n\n".to_vec()]
    );
    assert_eq!(
        async_sse::encode_message("\u{e9}", "ok\u{2026}", None),
        vec![b"event:\xC3\xA9\n".to_vec(), b"data:ok\xE2\x80\xA6\n\n".to_vec()]
    );
}

#[test]
fn retry_on_the_wire() {
    assert_eq!(async_sse::encode_retry(Duration::from_secs(12), None), vec![b"retry:12\n\n".to_vec()]);
    assert_eq!(
        async_sse::encode_retry(Duration::from_secs(3000), Some("a")),
        vec![b"id:a\n".to_vec(), b"retry:3000\n\n".to_vec()]
    );
    assert_eq!(async_sse::encode_retry(Duration::from_secs(0), None), vec![b"retry:0\n\n".to_vec()]);
    assert_eq!(async_sse::encode_retry(Duration::from_secs(9), None), vec![b"retry:9\n\n".to_vec()]);
    assert_eq!(async_sse::encode_retry(Duration::from_secs(10), None), vec![b"retry:10\n\n".to_vec()]);
    assert_eq!(
        async_sse::encode_retry(Duration::from_secs(u64::MAX), None),
        vec![b"retry:18446744073709551615\n\n".to_vec()]
    );
}

#[test]
fn retry_is_cut_down_to_whole_seconds() {
    assert_eq!(async_sse::encode_retry(Duration::from_millis(12_999), None), vec![b"retry:12\n\n".to_vec()]);
    assert_eq!(async_sse::encode_retry(Duration::from_millis(999), None), vec![b"retry:0\n\n".to_vec()]);
}

#[test]
fn message_comes_back_as_it_was_sent() {
    for (name, data, id) in [
        ("cat", "chashu", None),
        ("", "x", Some("")),
        ("a:b", ":", Some("1:2")),
        ("\u{1F600}", "\u{e9}t\u{e9}", Some("\u{2026}")),
        ("message", "data: with spaces ", Some("id")),
    ] {
        let wire = async_sse::encode_message(name, data, id).concat();
        let items = decode_bytes(&wire);
        assert_eq!(items.len(), 1);
        assert_message(items[0].as_ref().unwrap(), name, data, id);
    }
}

#[test]
fn message_with_a_line_break_does_not_come_back() {
    let wire = async_sse::encode_message("cat", "a\nb", None).concat();
    let items = decode_bytes(&wire);
    assert_eq!(items.len(), 1);
    assert_message(items[0].as_ref().unwrap(), "cat", "a", None);
    let wire = async_sse::encode_message("cat", " a", None).concat();
    assert_message(decode_bytes(&wire)[0].as_ref().unwrap(), "cat", "a", None);
    let wire = async_sse::encode_message("cat", "", None).concat();
    assert!(decode_bytes(&wire).is_empty());
}

#[test]
fn retry_comes_back_as_it_was_sent() {
    for secs in [0, 1, 12, 999, 1_000_000, u64::MAX] {
        for id in [None, Some("7")] {
            let wire = async_sse::encode_retry(Duration::from_secs(secs), id).concat();
            let items = decode_bytes(&wire);
            assert_eq!(items.len(), 1);
            assert_eq!(items[0], Ok(Event::Retry(Duration::from_secs(secs))));
        }
    }
    let wire = async_sse::encode_retry(Duration::from_secs(1_000_000), None).concat();
    assert_retry(decode_bytes(&wire)[0].as_ref().unwrap(), 1_000_000);
}

#[test]
fn send_gives_the_chunks_in_their_order() {
    let (sender, _encoder) = encode();
    assert_eq!(
        sender.send("cat", "chashu", Some("0")),
        Ok(vec![b"event:cat\n".to_vec(), b"id:0\n".to_vec(), b"data:chashu\n\n".to_vec()])
    );
    assert_eq!(
        sender.send_retry(Duration::from_secs(12), Some("0")),
        Ok(vec![b"id:0\n".to_vec(), b"retry:12\n\n".to_vec()])
    );
}

#[test]
fn send_fails_when_the_reading_side_is_gone() {
    let (sender, encoder) = encode();
    assert!(sender.send("cat", "chashu", None).is_ok());
    drop(encoder);
    assert_eq!(sender.send("cat", "chashu", None), Err(Error::Disconnected));
    assert_eq!(sender.send_retry(Duration::from_secs(1), None), Err(Error::Disconnected));
    assert_eq!(sender.try_send(b"data:x\n\n".to_vec()), Err(Error::Disconnected));
    assert_eq!(sender.clone().send("cat", "chashu", None), Err(Error::Disconnected));
}

#[test]
fn send_fails_even_when_the_queue_is_full() {
    let (sender, encoder) = encode();
    assert_eq!(sender.try_send(b"event:a\n".to_vec()), Ok(None));
    assert_eq!(sender.try_send(b"data:b\n\n".to_vec()), Ok(Some(b"data:b\n\n".to_vec())));
    drop(encoder);
    assert_eq!(sender.try_send(b"data:b\n\n".to_vec()), Err(Error::Disconnected));
    assert_eq!(sender.send("a", "b", None), Err(Error::Disconnected));
}

#[test]
fn queue_holds_one_chunk() {
    let (sender, mut encoder) = encode();
    assert_eq!(sender.try_send(b"one".to_vec()), Ok(None));
    assert_eq!(sender.try_send(b"two".to_vec()), Ok(Some(b"two".to_vec())));
    assert_eq!(sender.clone().try_send(b"two".to_vec()), Ok(Some(b"two".to_vec())));
    let mut wire = Vec::new();
    read_available(&mut encoder, &mut wire);
    assert_eq!(wire, b"one");
    assert_eq!(sender.clone().try_send(b"two".to_vec()), Ok(None));
    assert_eq!(sender.try_send(b"three".to_vec()), Ok(Some(b"three".to_vec())));
    read_available(&mut encoder, &mut wire);
    assert_eq!(wire, b"onetwo");
}

#[test]
fn reading_ends_when_the_senders_are_gone() {
    let (sender, mut encoder) = encode();
    let other = sender.clone();
    let mut buf = [0u8; 4];
    assert_eq!(encoder.read(&mut buf), None);
    assert_eq!(sender.try_send(b"abcdef".to_vec()), Ok(None));
    drop(sender);
    assert_eq!(encoder.read(&mut buf), Some(4));
    assert_eq!(&buf, b"abcd");
    drop(other);
    assert_eq!(encoder.read(&mut buf), Some(2));
    assert_eq!(&buf, b"efcd");
    assert_eq!(encoder.read(&mut buf), Some(0));
    assert_eq!(encoder.read(&mut buf), Some(0));
    assert_eq!(&buf, b"efcd");
}

#[test]
fn reading_into_buffers_of_any_size() {
    let (sender, mut encoder) = encode();
    assert!(encoder.needs_chunk());
    assert_eq!(sender.try_send(b"0123456789".to_vec()), Ok(None));
    let mut none = [0u8; 0];
    let mut one = [0u8; 1];
    let mut three = [0u8; 3];
    let mut many = [b'-'; 16];
    assert_eq!(encoder.read(&mut one), Some(1));
    assert_eq!(&one, b"0");
    assert!(!encoder.needs_chunk());
    assert_eq!(encoder.read(&mut none), Some(0));
    assert_eq!(encoder.read(&mut three), Some(3));
    assert_eq!(&three, b"123");
    assert_eq!(encoder.drain(&mut three), 3);
    assert_eq!(&three, b"456");
    assert_eq!(encoder.read(&mut many), Some(3));
    assert_eq!(&many, b"789-------------");
    assert!(encoder.needs_chunk());
    assert_eq!(encoder.drain(&mut many), 0);
    assert_eq!(encoder.read(&mut many), None);
    assert_eq!(&many, b"789-------------");
}

#[test]
fn reading_with_what_the_queue_gave() {
    let (_sender, mut encoder) = encode();
    let mut buf = [b'-'; 4];
    assert_eq!(encoder.read_with(Fetched::Empty, &mut buf), None);
    assert_eq!(encoder.read_with(Fetched::Chunk(Vec::new()), &mut buf), None);
    assert_eq!(encoder.read_with(Fetched::Chunk(b"abcdef".to_vec()), &mut buf), Some(4));
    assert_eq!(&buf, b"abcd");
    assert_eq!(encoder.read_with(Fetched::Chunk(b"gh".to_vec()), &mut buf), Some(4));
    assert_eq!(&buf, b"efgh");
    assert_eq!(encoder.read_with(Fetched::Chunk(b"ij".to_vec()), &mut buf), Some(2));
    assert_eq!(&buf, b"ijgh");
    encoder.accept(b"k".to_vec());
    encoder.accept(b"".to_vec());
    encoder.accept(b"l".to_vec());
    assert_eq!(encoder.read_with(Fetched::Closed, &mut buf), Some(2));
    assert_eq!(&buf, b"klgh");
    assert_eq!(encoder.read_with(Fetched::Closed, &mut buf), Some(0));
    assert_eq!(encoder.read_with(Fetched::Empty, &mut buf), None);
    assert_eq!(&buf, b"klgh");
}

#[test]
fn what_handing_over_gives() {
    assert_eq!(handed_over(Offered::Taken), Ok(None));
    assert_eq!(handed_over(Offered::Full(b"x".to_vec())), Ok(Some(b"x".to_vec())));
    assert_eq!(handed_over(Offered::Closed(b"x".to_vec())), Err(Error::Disconnected));
    assert_eq!(unless_disconnected(true, vec![b"x".to_vec()]), Err(Error::Disconnected));
    assert_eq!(unless_disconnected(false, vec![b"x".to_vec()]), Ok(vec![b"x".to_vec()]));
    assert_eq!(unless_disconnected(false, vec![]), Ok(vec![]));
}

#[test]
fn endpoints_of_the_queue() {
    let (sender, encoder) = encode();
    assert!(!sender.channel().is_closed());
    assert_eq!(sender.channel().capacity(), Some(1));
    assert_eq!(encoder.receiver().capacity(), Some(1));
    assert_eq!(sender.try_send(b"x".to_vec()), Ok(None));
    assert_eq!(encoder.receiver().len(), 1);
    drop(sender);
    assert!(encoder.receiver().is_closed());
}
