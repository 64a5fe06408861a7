use async_sse::{decode, decode_bytes, Error, Event, Message};
use std::time::Duration;

/// Assert a Message.
fn assert_msg(msg: &Message, name: &str, data: &str, id: Option<&'static str>) {
    assert_eq!(msg.id(), &id.map(|s| s.to_owned()));
    assert_eq!(msg.name(), name);
    assert_eq!(
        String::from_utf8(msg.data().to_owned()).unwrap(),
        String::from_utf8(data.as_bytes().to_owned()).unwrap()
    );
}

/// The message that an item holds.
fn message(item: Result<Event, Error>) -> Message {
    match item.unwrap() {
        Event::Message(msg) => msg,
        Event::Retry(dur) => panic!("a retry of {:?} in place of a message", dur),
    }
}

/// The messages of a whole stream.
fn messages(input: &[u8]) -> Vec<Message> {
    decode_bytes(input).into_iter().map(message).collect()
}

/// Decodes a stream that comes in the given pieces.
fn decode_pieces(pieces: &[&[u8]]) -> Vec<Result<Event, Error>> {
    let mut decoder = decode();
    let mut items = Vec::new();
    for piece in pieces {
        let mut rest: &[u8] = piece;
        while !rest.is_empty() && !decoder.is_finished() {
            let step = decoder.advance(rest);
            assert!(step.used > 0 && step.used <= rest.len());
            rest = &rest[step.used..];
            items.extend(step.item);
        }
    }
    items.extend(decoder.finish());
    assert!(decoder.is_finished());
    items
}

/// Decodes a stream that comes one byte at a time.
fn decode_bytewise(input: &[u8]) -> Vec<Result<Event, Error>> {
    let pieces: Vec<&[u8]> = input.chunks(1).collect();
    decode_pieces(&pieces)
}

#[test]
fn simple_event() {
    let input = "event: add\ndata: test\ndata: test2\n\n";
    let mut reader = decode_bytes(input.as_bytes()).into_iter();
    let msg = message(reader.next().unwrap());
    assert_eq!(msg.id(), &None);
    assert_eq!(msg.name(), "add");
    assert_eq!(msg.data(), b"test\ntest2");
}

#[test]
fn decode_stream_when_fed_by_line() {
    let lines: [&[u8]; 5] = [b":ok\n", b"event:message\n", b"id:id1\n", b"data:data1\n", b"\n"];
    let res: Vec<Message> = decode_pieces(&lines).into_iter().map(message).collect();
    assert_eq!(res.len(), 1);
    assert_msg(res.get(0).unwrap(), "message", "data1", Some("id1"));
    let whole = messages(b":ok\nevent:message\nid:id1\ndata:data1\n\n");
    assert_eq!(whole, res);
}

#[test]
fn maintain_id_state() {
    let mut res = messages(b"id:1\ndata:messageone\n\ndata:messagetwo\n\n");
    assert_eq!(res.len(), 2);
    assert_msg(&res.remove(0), "message", "messageone", Some("1"));
    assert_msg(&res.remove(0), "message", "messagetwo", Some("1"));
}

#[test]
fn event_data() {
    let input = [
        "data:msg\n",
        "data:msg\n",
        "\n",
        ":\n",
        "falsefield:msg\n",
        "\n",
        "falsefield:msg\n",
        "Data:data\n",
        "\n",
        "data\n",
        "\n",
        "data:end\n",
        "\n",
    ]
    .concat();
    let mut reader = decode_bytes(input.as_bytes()).into_iter();
    assert_msg(&message(reader.next().unwrap()), "message", "msg\nmsg", None);
    assert_msg(&message(reader.next().unwrap()), "message", "end", None);
    assert!(reader.next().is_none());
}

#[test]
fn bom() {
    let mut input = vec![];
    input.extend(b"\xEF\xBB\xBF");
    input.extend(b"data:1\n");
    input.extend(b"\n");
    input.extend(b"\xEF\xBB\xBF");
    input.extend(b"data:2\n");
    input.extend(b"\n");
    input.extend(b"data:3\n");
    input.extend(b"\n");
    let mut reader = decode_bytes(&input).into_iter();
    assert_msg(&message(reader.next().unwrap()), "message", "1", None);
    assert_msg(&message(reader.next().unwrap()), "message", "3", None);
    assert!(reader.next().is_none());
}

#[test]
fn bom2() {
    let mut input = vec![];
    input.extend(b"\xEF\xBB\xBF");
    input.extend(b"\xEF\xBB\xBF");
    input.extend(b"data:1\n");
    input.extend(b"\n");
    input.extend(b"data:2\n");
    input.extend(b"\n");
    input.extend(b"data:3\n");
    input.extend(b"\n");
    let mut reader = decode_bytes(&input).into_iter();
    assert_msg(&message(reader.next().unwrap()), "message", "2", None);
    assert_msg(&message(reader.next().unwrap()), "message", "3", None);
    assert!(reader.next().is_none());
}

#[test]
fn comments() {
    let longstring = "x".repeat(2049);
    let mut input = ["data:1\r", ":\0\n", ":\r\n", "data:2\n", ":"].concat();
    input.push_str(&longstring);
    input.push_str("\r");
    input.push_str("data:3\n");
    input.push_str(":data:fail\r");
    input.push_str(":");
    input.push_str(&longstring);
    input.push_str("\n");
    input.push_str("data:4\n\n");
    let mut reader = decode_bytes(input.as_bytes()).into_iter();
    assert_msg(&message(reader.next().unwrap()), "message", "1\n2\n3\n4", None);
    assert!(reader.next().is_none());
    let bytewise: Vec<Message> = decode_bytewise(input.as_bytes()).into_iter().map(message).collect();
    assert_eq!(bytewise.len(), 1);
    assert_msg(&bytewise[0], "message", "1\n2\n3\n4", None);
}

#[test]
fn bom_is_stripped_when_it_comes_in_pieces() {
    let pieces: [&[u8]; 4] = [b"\xEF", b"\xBB", b"\xBFdata:1", b"\n\n"];
    let res: Vec<Message> = decode_pieces(&pieces).into_iter().map(message).collect();
    assert_eq!(res.len(), 1);
    assert_msg(&res[0], "message", "1", None);
}

#[test]
fn bom_alone_gives_nothing() {
    assert!(decode_bytes(b"\xEF\xBB\xBF").is_empty());
    assert!(decode_bytes(b"").is_empty());
}

#[test]
fn bom_inside_a_line_stays() {
    let res = messages("data:\u{feff}x\n\n".as_bytes());
    assert_eq!(res.len(), 1);
    assert_msg(&res[0], "message", "\u{feff}x", None);
}

#[test]
fn retry_event() {
    let items = decode_bytes(b"retry:12\n\n");
    assert_eq!(items, vec![Ok(Event::Retry(Duration::from_secs(12)))]);
    assert!(items[0].as_ref().unwrap().is_retry());
    assert!(!items[0].as_ref().unwrap().is_message());
}

#[test]
fn retry_comes_before_the_message_that_follows() {
    let items = decode_bytes(b"data:a\nretry:3\ndata:b\n\n");
    assert_eq!(items.len(), 2);
    assert_eq!(items[0], Ok(Event::Retry(Duration::from_secs(3))));
    let mut rest = items.into_iter().skip(1);
    assert_msg(&message(rest.next().unwrap()), "message", "a\nb", None);
}

#[test]
fn retry_takes_one_space_and_leading_zeros() {
    assert_eq!(decode_bytes(b"retry: 03000\n"), vec![Ok(Event::Retry(Duration::from_secs(3000)))]);
    assert_eq!(decode_bytes(b"retry:0\n"), vec![Ok(Event::Retry(Duration::from_secs(0)))]);
}

#[test]
fn retry_without_digits_only_is_ignored() {
    assert!(decode_bytes(b"retry:1000x\n\n").is_empty());
    assert!(decode_bytes(b"retry:-1\n\n").is_empty());
    assert!(decode_bytes(b"retry:  1\n\n").is_empty());
    assert!(decode_bytes("retry:\u{0661}\n\n".as_bytes()).is_empty());
}

#[test]
fn retry_without_value_is_ignored() {
    assert!(decode_bytes(b"retry\n\n").is_empty());
    assert!(decode_bytes(b"retry:\n\n").is_empty());
    assert!(decode_bytes(b"retry: \n\n").is_empty());
}

#[test]
fn retry_is_limited_to_64_bits() {
    assert_eq!(
        decode_bytes(b"retry:18446744073709551615\n"),
        vec![Ok(Event::Retry(Duration::from_secs(u64::MAX)))]
    );
    assert!(decode_bytes(b"retry:18446744073709551616\n").is_empty());
    assert!(decode_bytes(b"retry:99999999999999999999999\n").is_empty());
    assert!(decode_bytes(b"retry:99999999999999999999999x\n").is_empty());
}

#[test]
fn retry_at_the_end_of_the_stream() {
    assert_eq!(decode_bytes(b"retry:7"), vec![Ok(Event::Retry(Duration::from_secs(7)))]);
    assert_eq!(decode_bytewise(b"retry:7"), vec![Ok(Event::Retry(Duration::from_secs(7)))]);
}

#[test]
fn event_name_defaults_to_message() {
    let res = messages(b"data:x\n\n");
    assert_msg(&res[0], "message", "x", None);
}

#[test]
fn event_name_may_be_empty() {
    let res = messages(b"event: \ndata:data\n\n");
    assert_eq!(res.len(), 1);
    assert_msg(&res[0], "", "data", None);
}

#[test]
fn event_name_is_the_last_one_set() {
    let res = messages(b"event:a\nevent:b\ndata:x\n\n");
    assert_msg(&res[0], "b", "x", None);
}

#[test]
fn dispatch_resets_the_event_name() {
    let res = messages(b"event:test\ndata:x\n\ndata:x\n\n");
    assert_eq!(res.len(), 2);
    assert_msg(&res[0], "test", "x", None);
    assert_msg(&res[1], "message", "x", None);
}

#[test]
fn dispatch_without_data_gives_nothing_and_resets() {
    let res = messages(b"event:lost\n\ndata:x\n\n");
    assert_eq!(res.len(), 1);
    assert_msg(&res[0], "message", "x", None);
    assert!(decode_bytes(b"\n\n\n").is_empty());
    assert!(decode_bytes(b"data:\n\n").is_empty());
    assert!(decode_bytes(b"data\n\n").is_empty());
}

#[test]
fn only_one_line_feed_is_trimmed() {
    let res = messages(b"data\ndata\n\n");
    assert_eq!(res.len(), 1);
    assert_msg(&res[0], "message", "\n", None);
    let res = messages(b"data:a\ndata:\n\n");
    assert_msg(&res[0], "message", "a\n", None);
}

#[test]
fn value_loses_one_space_only() {
    let res = messages(b"data:  2\n\n");
    assert_msg(&res[0], "message", " 2", None);
    let res = messages(b"data:\ttest\n\n");
    assert_msg(&res[0], "message", "\ttest", None);
}

#[test]
fn value_keeps_its_colons() {
    let res = messages(b"event:a:b\nid::\ndata: c: d\n\n");
    assert_msg(&res[0], "a:b", "c: d", Some(":"));
}

#[test]
fn field_names_are_exact() {
    let input = "Data:1\nDATA:2\n data:3\ndata :4\nda-ta:5\ndata_5\nId:6\nEvent:7\ndata:ok\n\n";
    let res = messages(input.as_bytes());
    assert_eq!(res.len(), 1);
    assert_msg(&res[0], "message", "ok", None);
}

#[test]
fn id_stays_until_it_is_set_again() {
    let res = messages(b"id:1\ndata:a\n\ndata:b\n\nid:2\ndata:c\n\ndata:d\n\nid\ndata:e\n\n");
    assert_eq!(res.len(), 5);
    assert_msg(&res[0], "message", "a", Some("1"));
    assert_msg(&res[1], "message", "b", Some("1"));
    assert_msg(&res[2], "message", "c", Some("2"));
    assert_msg(&res[3], "message", "d", Some("2"));
    assert_msg(&res[4], "message", "e", Some(""));
}

#[test]
fn data_before_the_end_without_a_blank_line_is_dropped() {
    let res = messages(b"data:test1\n\nid:test\ndata:test2");
    assert_eq!(res.len(), 1);
    assert_msg(&res[0], "message", "test1", None);
}

#[test]
fn all_line_endings() {
    let res = messages(b"data:test\r\ndata\ndata:test\r\n\r");
    assert_eq!(res.len(), 1);
    assert_msg(&res[0], "message", "test\n\ntest", None);
}

#[test]
fn text_that_is_not_ascii() {
    let res = messages(b"event:\xC3\xA9\nid:\xF0\x9F\x98\x80\ndata:ok\xE2\x80\xA6\n\n");
    assert_eq!(res.len(), 1);
    assert_msg(&res[0], "\u{e9}", "ok\u{2026}", Some("\u{1F600}"));
}

#[test]
fn invalid_encoding_ends_the_decoder() {
    let input = b"data:a\n\ndata:\xFF\n\ndata:b\n\n";
    let items = decode_bytes(input);
    assert_eq!(items.len(), 2);
    assert!(items[0].as_ref().unwrap().is_message());
    assert_eq!(items[1], Err(Error::InvalidEncoding));
    assert_eq!(decode_bytewise(input), items);
    assert_eq!(decode_bytes(b"\xC3"), vec![Err(Error::InvalidEncoding)]);
    assert_eq!(decode_bytes(b"\xED\xA0\x80\n"), vec![Err(Error::InvalidEncoding)]);
}

#[test]
fn finished_decoder_gives_nothing() {
    let mut decoder = decode();
    assert!(!decoder.is_finished());
    let step = decoder.advance(b"\xFF\ndata:x\n\n");
    assert_eq!(step.used, 2);
    assert_eq!(step.item, Some(Err(Error::InvalidEncoding)));
    assert!(decoder.is_finished());
    let step = decoder.advance(b"data:x\n\n");
    assert_eq!(step.used, 0);
    assert_eq!(step.item, None);
    assert_eq!(decoder.process_line("retry:1"), None);
    assert_eq!(decoder.finish(), None);
}

#[test]
fn advance_takes_one_line_at_a_time() {
    let mut decoder = decode();
    let input = b"data:x\r\n\nretry:1\rda";
    let step = decoder.advance(input);
    assert_eq!((step.used, step.item.is_none()), (8, true));
    let step = decoder.advance(&input[8..]);
    assert_eq!(step.used, 1);
    assert_msg(&message(step.item.unwrap()), "message", "x", None);
    let step = decoder.advance(&input[9..]);
    assert_eq!(step.used, 8);
    assert_eq!(step.item, Some(Ok(Event::Retry(Duration::from_secs(1)))));
    let step = decoder.advance(&input[17..]);
    assert_eq!((step.used, step.item.is_none()), (2, true));
    let step = decoder.advance(b"");
    assert_eq!((step.used, step.item.is_none()), (0, true));
    assert_eq!(decoder.finish(), None);
}

#[test]
fn process_line_takes_text() {
    let mut decoder = decode();
    assert_eq!(decoder.process_line("\u{feff}id:7"), None);
    assert_eq!(decoder.process_line("\u{feff}data:lost"), None);
    assert_eq!(decoder.process_line("data:kept"), None);
    let msg = match decoder.process_line("") {
        Some(Event::Message(msg)) => msg,
        other => panic!("no message: {:?}", other),
    };
    assert_msg(&msg, "message", "kept", Some("7"));
    assert_eq!(decoder.process_line(""), None);
    assert_eq!(
        decoder.process_line("retry:5"),
        Some(Event::Retry(Duration::from_secs(5)))
    );
}

#[test]
fn cutting_the_stream_changes_nothing() {
    let input = "\u{feff}event:a\r\nid:1\rdata: x\n\r\n:c\n\ndata:y\r\n\r\nretry:2\n\rdata:z\n\n";
    let whole = decode_bytes(input.as_bytes());
    assert_eq!(whole.len(), 4);
    assert_eq!(decode_bytewise(input.as_bytes()), whole);
    for cut in 0..input.len() {
        let (a, b) = input.as_bytes().split_at(cut);
        assert_eq!(decode_pieces(&[a, b]), whole);
    }
}

#[test]
fn error_texts() {
    assert_eq!(Error::InvalidEncoding.as_str(), "stream did not contain valid UTF-8");
    assert_eq!(Error::Disconnected.as_str(), "sse disconnected");
}
