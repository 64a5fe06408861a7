//! What holds of the wire format as a whole.
//!
//! The laws are stated over the functions that the contracts of the decoder
//! and of the encoder use, and proved from their definitions.

use vstd::prelude::*;
use vstd::utf8::*;

use crate::decoder::{
    all_digits, decimal_value, decode_line, decode_lines, decode_stream, field_name, field_value,
    is_digit, lemma_decode_lines_finished, lemma_decode_lines_first, lemma_first_colon_is,
    optional_item_seq, parse_seconds, step, strip_bom, trim_line_feed, ParserView, BOM,
};
use crate::encoder::{
    data_block, decimal, digit, event_line, id_line, lemma_message_wire, lemma_retry_wire,
    message_wire, retry_block, retry_wire,
};
use crate::error::Error;
use crate::event::{seconds, EventView};
use crate::lines::{
    break_width, is_break, lemma_lines_after_nothing, lemma_lines_after_run, lemma_run_length,
    lemma_run_length_is, lemma_split_first_line, line_text, run_length, split_lines, CR, LF,
};
use crate::message::MessageView;
use crate::text::{
    lemma_codes_differ, lemma_encode_ascii, lemma_encode_concat, lemma_encode_keeps_ascii_out,
};

verus! {

/// No event or one event, as a sequence.
pub open spec fn optional_event_seq(event: Option<EventView>) -> Seq<EventView> {
    match event {
        Some(e) => seq![e],
        None => Seq::empty(),
    }
}

/// What the decoder remembers after `lines`, and the events that it emits
/// on the way.
pub open spec fn steps(st: ParserView, lines: Seq<Seq<char>>) -> (ParserView, Seq<EventView>)
    decreases lines.len(),
{
    if lines.len() == 0 {
        (st, Seq::empty())
    } else {
        let (mid, event) = step(st, lines[0]);
        let (end, rest) = steps(mid, lines.drop_first());
        (end, optional_event_seq(event) + rest)
    }
}

/// Is `line` a field, and not a blank line or a comment?
pub open spec fn is_field(line: Seq<char>) -> bool {
    line.len() > 0 && line[0] != ':'
}

/// Is `line` the field that sets the id?
pub open spec fn sets_id(line: Seq<char>) -> bool {
    is_field(line) && field_name(line) == "id"@
}

/// Does `value` start with something else than a space?
pub open spec fn no_space_first(value: Seq<char>) -> bool {
    value.len() > 0 ==> value[0] != ' '
}

/// A blank line on which the data that has been gathered is empty, once a
/// line feed at its end is taken off, emits nothing. Event type and data
/// start afresh all the same.
pub proof fn lemma_empty_dispatch_is_suppressed(st: ParserView)
    requires
        trim_line_feed(st.data).len() == 0,
    ensures
        step(st, Seq::empty()) == (
            ParserView { event_type: None, data: Seq::empty(), ..st },
            None::<EventView>,
        ),
{
}

/// A blank line on which data has been gathered emits it as a message,
/// with the last id that was set, and with the event type `message` where
/// none was set.
pub proof fn lemma_dispatch_emits(st: ParserView)
    requires
        trim_line_feed(st.data).len() > 0,
    ensures
        step(st, Seq::empty()) == (
            ParserView { event_type: None, data: Seq::empty(), ..st },
            Some(
                EventView::Message(
                    MessageView {
                        id: st.last_id,
                        event: match st.event_type {
                            Some(name) => name,
                            None => "message"@,
                        },
                        data: trim_line_feed(st.data),
                    },
                ),
            ),
        ),
{
}

/// A line that does not set the id leaves the id as it is, and a message
/// that the line emits carries it.
pub proof fn lemma_step_keeps_id(st: ParserView, line: Seq<char>)
    requires
        !sets_id(line),
    ensures
        step(st, line).0.last_id == st.last_id,
        step(st, line).1 matches Some(EventView::Message(m)) ==> m.id == st.last_id,
{
}

/// Once an id is set, it stays: over any lines that do not set the id, the
/// id is what it was, and every message that they emit carries it.
pub proof fn lemma_id_persists(st: ParserView, lines: Seq<Seq<char>>)
    requires
        forall|i: int| 0 <= i < lines.len() ==> !sets_id(#[trigger] lines[i]),
    ensures
        steps(st, lines).0.last_id == st.last_id,
        forall|k: int|
            0 <= k < steps(st, lines).1.len() ==> (#[trigger] steps(st, lines).1[k] matches EventView::Message(
                m,
            ) ==> m.id == st.last_id),
    decreases lines.len(),
{
    if lines.len() > 0 {
        let (mid, event) = step(st, lines[0]);
        let tail = lines.drop_first();
        assert(!sets_id(lines[0]));
        lemma_step_keeps_id(st, lines[0]);
        assert forall|i: int| 0 <= i < tail.len() implies !sets_id(#[trigger] tail[i]) by {
            assert(tail[i] == lines[i + 1]);
        }
        lemma_id_persists(mid, tail);
        let first = optional_event_seq(event);
        let rest = steps(mid, tail).1;
        assert(steps(st, lines).1 == first + rest);
        assert forall|k: int| 0 <= k < steps(st, lines).1.len() implies (#[trigger] steps(
            st,
            lines,
        ).1[k] matches EventView::Message(m) ==> m.id == st.last_id) by {
            if k < first.len() {
                assert((first + rest)[k] == first[k]);
            } else {
                assert((first + rest)[k] == rest[k - first.len()]);
            }
        }
    }
}

/// The name and the value of a field that is written as a name without
/// `:`, a `:`, and a value that does not start with a space.
pub proof fn lemma_field_parts(name: Seq<char>, value: Seq<char>)
    requires
        forall|i: int| 0 <= i < name.len() ==> #[trigger] name[i] != ':',
        no_space_first(value),
    ensures
        field_name(name + seq![':'] + value) == name,
        field_value(name + seq![':'] + value) == value,
{
    let line = name + seq![':'] + value;
    let c = name.len() as int;
    assert(line[c] == ':');
    assert forall|j: int| 0 <= j < c implies #[trigger] line[j] != ':' by {
        assert(line[j] == name[j]);
    }
    lemma_first_colon_is(line, c);
    assert(line.take(c) =~= name);
    if value.len() > 0 {
        assert(line[c + 1] == value[0]);
    }
    assert(line.skip(c + 1) =~= value);
}

/// A comment, which is a line that starts with `:`, changes nothing and
/// emits nothing, whatever it holds.
pub proof fn lemma_comment_is_ignored(st: ParserView, line: Seq<char>)
    requires
        line.len() > 0,
        line[0] == ':',
    ensures
        step(st, line) == (st, None::<EventView>),
{
}

/// A field whose name is not one of the four that the decoder knows changes
/// nothing and emits nothing. The names are matched as they are written:
/// `Data` is not `data`.
pub proof fn lemma_unknown_field_is_ignored(st: ParserView, line: Seq<char>)
    requires
        is_field(line),
        field_name(line) != "event"@,
        field_name(line) != "data"@,
        field_name(line) != "id"@,
        field_name(line) != "retry"@,
    ensures
        step(st, line) == (st, None::<EventView>),
{
}

/// A field that is spelled `Data`, with a capital, is not the data field:
/// it adds nothing to the data.
pub proof fn lemma_capital_data_is_ignored(st: ParserView, value: Seq<char>)
    ensures
        step(st, "Data:"@ + value) == (st, None::<EventView>),
{
    reveal_strlit("Data:");
    reveal_strlit("event");
    reveal_strlit("data");
    reveal_strlit("id");
    reveal_strlit("retry");
    let line = "Data:"@ + value;
    assert(line[0] == 'D');
    assert(line[4] == ':');
    assert forall|j: int| 0 <= j < 4 implies #[trigger] line[j] != ':' by {
        assert(line[j] == "Data:"@[j]);
    }
    lemma_first_colon_is(line, 4);
    let name = field_name(line);
    assert(name.len() == 4);
    assert(name[0] == 'D');
    assert("data"@[0] == 'd');
    lemma_unknown_field_is_ignored(st, line);
}

/// The `event` field sets the event type to its value.
pub proof fn lemma_step_event(st: ParserView, value: Seq<char>)
    requires
        no_space_first(value),
    ensures
        step(st, "event:"@ + value) == (
            ParserView { event_type: Some(value), ..st },
            None::<EventView>,
        ),
{
    reveal_strlit("event:");
    reveal_strlit("event");
    assert("event:"@ =~= "event"@ + seq![':']);
    lemma_field_parts("event"@, value);
    assert(("event:"@ + value)[0] == 'e');
}

/// The `id` field sets the id to its value.
pub proof fn lemma_step_id(st: ParserView, value: Seq<char>)
    requires
        no_space_first(value),
    ensures
        step(st, "id:"@ + value) == (ParserView { last_id: Some(value), ..st }, None::<EventView>),
{
    reveal_strlit("id:");
    reveal_strlit("id");
    reveal_strlit("event");
    reveal_strlit("data");
    assert("id:"@ =~= "id"@ + seq![':']);
    lemma_field_parts("id"@, value);
    assert(("id:"@ + value)[0] == 'i');
}

/// The `data` field adds its value and a line feed to the data.
pub proof fn lemma_step_data(st: ParserView, value: Seq<char>)
    requires
        no_space_first(value),
    ensures
        step(st, "data:"@ + value) == (
            ParserView { data: st.data + encode_utf8(value) + seq![crate::lines::LF], ..st },
            None::<EventView>,
        ),
{
    reveal_strlit("data:");
    reveal_strlit("data");
    reveal_strlit("event");
    assert("data:"@ =~= "data"@ + seq![':']);
    lemma_field_parts("data"@, value);
    assert(("data:"@ + value)[0] == 'd');
}

/// The `retry` field emits a retry hint at once, where its value is a
/// number of seconds, and changes nothing.
pub proof fn lemma_step_retry(st: ParserView, value: Seq<char>)
    requires
        no_space_first(value),
    ensures
        step(st, "retry:"@ + value) == (
            st,
            match parse_seconds(value) {
                Some(secs) => Some(EventView::Retry(seconds(secs))),
                None => None,
            },
        ),
{
    reveal_strlit("retry:");
    reveal_strlit("retry");
    reveal_strlit("data");
    reveal_strlit("event");
    reveal_strlit("id");
    assert("retry:"@ =~= "retry"@ + seq![':']);
    lemma_field_parts("retry"@, value);
    assert(("retry:"@ + value)[0] == 'r');
    assert("event"@[0] == 'e');
    assert("retry"@[0] == 'r');
}

/// Does `text` hold no line break?
pub open spec fn no_line_break(text: Seq<char>) -> bool {
    forall|i: int| 0 <= i < text.len() ==> #[trigger] text[i] != '\r' && text[i] != '\n'
}

/// Can `value` be written as the value of a field and come back as it is?
/// It can where it holds no line break and does not start with a space.
pub open spec fn plain(value: Seq<char>) -> bool {
    no_line_break(value) && no_space_first(value)
}

/// Is the id, where there is one, plain?
pub open spec fn plain_id(id: Option<Seq<char>>) -> bool {
    match id {
        Some(i) => plain(i),
        None => true,
    }
}

/// An event that was decoded without an error.
pub open spec fn decoded(event: Option<EventView>) -> Option<Result<EventView, Error>> {
    match event {
        Some(e) => Some(Ok(e)),
        None => None,
    }
}

/// The bytes of a text that is not empty are not empty.
pub proof fn lemma_encode_not_empty(text: Seq<char>)
    requires
        text.len() > 0,
    ensures
        encode_utf8(text).len() > 0,
{
    assert(encode_scalar(text[0] as u32).len() > 0);
}

/// A line of text, ended by a line feed, is the first line of the stream
/// that it starts.
pub proof fn lemma_split_text_line(line: Seq<char>, rest: Seq<u8>)
    requires
        no_line_break(line),
    ensures
        split_lines(encode_utf8(line) + seq![LF] + rest) == seq![encode_utf8(line)] + split_lines(
            rest,
        ),
{
    let e = encode_utf8(line);
    assert forall|i: int| 0 <= i < line.len() implies (#[trigger] line[i]) as u32 != CR as u32 by {
        lemma_codes_differ(line[i], '\r');
    }
    assert forall|i: int| 0 <= i < line.len() implies (#[trigger] line[i]) as u32 != LF as u32 by {
        lemma_codes_differ(line[i], '\n');
    }
    lemma_encode_keeps_ascii_out(line, CR);
    lemma_encode_keeps_ascii_out(line, LF);
    assert forall|j: int| 0 <= j < e.len() implies !is_break(#[trigger] e[j]) by {}
    lemma_run_length_is(e, e.len() as int);
    lemma_split_first_line(e, seq![LF], rest);
}

/// What the decoder gives on a stream that starts with a line of text: what
/// it gives on the line, and then what it gives on the rest.
pub proof fn lemma_decode_first_text_line(st: ParserView, line: Seq<char>, rest: Seq<u8>)
    requires
        no_line_break(line),
        !st.finished,
    ensures
        decode_lines(st, split_lines(encode_utf8(line) + seq![LF] + rest)) == optional_item_seq(
            decoded(decode_line(st, line).1),
        ) + decode_lines(decode_line(st, line).0, split_lines(rest)),
{
    lemma_split_text_line(line, rest);
    lemma_decode_lines_first(st, Some(encode_utf8(line)), split_lines(rest));
    encode_utf8_valid_utf8(line);
    encode_utf8_decode_utf8(line);
    assert(line_text(encode_utf8(line)) == Ok::<Seq<char>, Error>(line));
}

/// A line that does not start with a byte-order mark is taken as it is.
pub proof fn lemma_decode_line_without_bom(st: ParserView, line: Seq<char>)
    requires
        !st.finished,
        line.len() > 0 ==> line[0] != BOM,
    ensures
        decode_line(st, line) == step(ParserView { bom_consumed: true, ..st }, line),
{
    if st.bom_consumed {
        assert(ParserView { bom_consumed: true, ..st } == st);
    }
}

/// A number that is written in base ten reads as that number.
pub proof fn lemma_decimal_reads_back(n: nat)
    ensures
        decimal(n).len() > 0,
        all_digits(decimal(n)),
        decimal_value(decimal(n)) == n,
    decreases n,
{
    let text = decimal(n);
    let last = digit(n % 10);
    assert(is_digit(last));
    assert(last as nat - '0' as nat == n % 10);
    if n < 10 {
        assert(text.drop_last() =~= Seq::<char>::empty());
        assert(decimal_value(text.drop_last()) == 0);
    } else {
        let front = decimal(n / 10);
        lemma_decimal_reads_back(n / 10);
        assert(text.drop_last() =~= front);
        assert(text.last() == last);
        assert forall|i: int| 0 <= i < text.len() implies is_digit(#[trigger] text[i]) by {
            if i < front.len() {
                assert(text[i] == front[i]);
            }
        }
    }
}

/// A message that is written on the wire and decoded comes back as the one
/// message that was written: with its event type, its data and its id.
///
/// This holds of values that can stand on one line as they are: they hold
/// no line break and do not start with a space. The data is not empty: a
/// message without data is never dispatched.
pub proof fn lemma_message_round_trip(name: Seq<char>, data: Seq<char>, id: Option<Seq<char>>)
    requires
        plain(name),
        plain(data),
        data.len() > 0,
        plain_id(id),
    ensures
        decode_stream(message_wire(name, data, id)) == seq![
            Ok::<EventView, Error>(
                EventView::Message(MessageView { id, event: name, data: encode_utf8(data) }),
            ),
        ],
{
    reveal_strlit("\n");
    reveal_strlit("\n\n");
    reveal_strlit("event:");
    reveal_strlit("id:");
    reveal_strlit("data:");
    let blank = Seq::<char>::empty();
    let nothing = Seq::<u8>::empty();
    let feed = seq![LF];
    let l1 = "event:"@ + name;
    let l3 = "data:"@ + data;
    // The wire, line by line.
    let r3 = encode_utf8(blank) + feed + nothing;
    let r2 = encode_utf8(l3) + feed + r3;
    let r1 = match id {
        Some(i) => encode_utf8("id:"@ + i) + feed + r2,
        None => r2,
    };
    let w = encode_utf8(l1) + feed + r1;
    assert(message_wire(name, data, id) =~= w) by {
        lemma_message_wire(name, data, id);
        lemma_encode_ascii('\n');
        assert("\n"@ =~= seq!['\n']);
        assert("\n\n"@ =~= seq!['\n'] + seq!['\n']);
        lemma_encode_concat(seq!['\n'], seq!['\n']);
        lemma_encode_concat(l1, "\n"@);
        lemma_encode_concat(l3, "\n\n"@);
        assert(event_line(name) =~= l1 + "\n"@);
        assert(data_block(data) =~= l3 + "\n\n"@);
        match id {
            Some(i) => {
                lemma_encode_concat("id:"@ + i, "\n"@);
                assert(id_line(i) =~= ("id:"@ + i) + "\n"@);
            },
            None => {},
        }
    }
    // The decoder, line by line.
    let s0 = ParserView::start();
    let s1 = ParserView { bom_consumed: true, event_type: Some(name), ..s0 };
    let s2 = ParserView { last_id: id, ..s1 };
    let s3 = ParserView { data: encode_utf8(data) + feed, ..s2 };
    let s4 = ParserView { event_type: None, data: Seq::empty(), ..s3 };
    let message = EventView::Message(MessageView { id, event: name, data: encode_utf8(data) });

    assert(no_line_break(l1));
    assert(l1[0] == 'e');
    lemma_decode_first_text_line(s0, l1, r1);
    lemma_decode_line_without_bom(s0, l1);
    lemma_step_event(ParserView { bom_consumed: true, ..s0 }, name);
    assert(decode_line(s0, l1) == (s1, None::<EventView>));

    match id {
        Some(i) => {
            let l2 = "id:"@ + i;
            assert(no_line_break(l2));
            assert(l2[0] == 'i');
            lemma_decode_first_text_line(s1, l2, r2);
            lemma_decode_line_without_bom(s1, l2);
            lemma_step_id(s1, i);
            assert(decode_line(s1, l2) == (s2, None::<EventView>));
        },
        None => {
            assert(s2 == s1);
        },
    }
    assert(decode_lines(s1, split_lines(r1)) == decode_lines(s2, split_lines(r2)));

    assert(no_line_break(l3));
    assert(l3[0] == 'd');
    lemma_decode_first_text_line(s2, l3, r3);
    lemma_decode_line_without_bom(s2, l3);
    lemma_step_data(s2, data);
    assert(s2.data + encode_utf8(data) + feed =~= encode_utf8(data) + feed);
    assert(decode_line(s2, l3) == (s3, None::<EventView>));

    lemma_decode_first_text_line(s3, blank, nothing);
    lemma_decode_line_without_bom(s3, blank);
    lemma_encode_not_empty(data);
    assert(trim_line_feed(s3.data) =~= encode_utf8(data));
    lemma_dispatch_emits(s3);
    assert(decode_line(s3, blank) == (s4, Some(message)));
    assert(split_lines(nothing) =~= Seq::<Seq<u8>>::empty());
    assert(decode_lines(s4, split_lines(nothing)) =~= Seq::<Result<EventView, Error>>::empty());
    assert(decode_lines(s3, split_lines(r3)) =~= seq![Ok::<EventView, Error>(message)]);
    assert(decode_lines(s2, split_lines(r2)) =~= seq![Ok::<EventView, Error>(message)]);
    assert(decode_lines(s0, split_lines(w)) =~= seq![Ok::<EventView, Error>(message)]);
}

/// A retry hint that is written on the wire and decoded comes back as the
/// one hint that was written, with its delay in whole seconds.
pub proof fn lemma_retry_round_trip(secs: u64, id: Option<Seq<char>>)
    requires
        plain_id(id),
    ensures
        decode_stream(retry_wire(secs, id)) == seq![
            Ok::<EventView, Error>(EventView::Retry(seconds(secs))),
        ],
{
    reveal_strlit("\n");
    reveal_strlit("\n\n");
    reveal_strlit("id:");
    reveal_strlit("retry:");
    let blank = Seq::<char>::empty();
    let nothing = Seq::<u8>::empty();
    let feed = seq![LF];
    let number = decimal(secs as nat);
    let l2 = "retry:"@ + number;
    lemma_decimal_reads_back(secs as nat);
    assert(is_digit(number[0]));
    // The wire, line by line.
    let r2 = encode_utf8(blank) + feed + nothing;
    let r1 = encode_utf8(l2) + feed + r2;
    let w = match id {
        Some(i) => encode_utf8("id:"@ + i) + feed + r1,
        None => r1,
    };
    assert(retry_wire(secs, id) =~= w) by {
        lemma_retry_wire(secs, id);
        lemma_encode_ascii('\n');
        assert("\n"@ =~= seq!['\n']);
        assert("\n\n"@ =~= seq!['\n'] + seq!['\n']);
        lemma_encode_concat(seq!['\n'], seq!['\n']);
        lemma_encode_concat(l2, "\n\n"@);
        assert(retry_block(secs) =~= l2 + "\n\n"@);
        match id {
            Some(i) => {
                lemma_encode_concat("id:"@ + i, "\n"@);
                assert(id_line(i) =~= ("id:"@ + i) + "\n"@);
            },
            None => {},
        }
    }
    // The decoder, line by line.
    let s0 = ParserView::start();
    let s1 = match id {
        Some(i) => ParserView { bom_consumed: true, last_id: id, ..s0 },
        None => s0,
    };
    let s2 = ParserView { bom_consumed: true, ..s1 };
    let hint = EventView::Retry(seconds(secs));

    match id {
        Some(i) => {
            let l1 = "id:"@ + i;
            assert(no_line_break(l1));
            assert(l1[0] == 'i');
            lemma_decode_first_text_line(s0, l1, r1);
            lemma_decode_line_without_bom(s0, l1);
            lemma_step_id(ParserView { bom_consumed: true, ..s0 }, i);
            assert(decode_line(s0, l1) == (s1, None::<EventView>));
        },
        None => {},
    }
    assert(decode_lines(s0, split_lines(w)) == decode_lines(s1, split_lines(r1)));

    assert forall|i: int| 0 <= i < l2.len() implies #[trigger] l2[i] != '\r' && l2[i] != '\n' by {
        if i >= 6 {
            assert(l2[i] == number[i - 6]);
            assert(is_digit(number[i - 6]));
        }
    }
    assert(l2[0] == 'r');
    lemma_decode_first_text_line(s1, l2, r2);
    lemma_decode_line_without_bom(s1, l2);
    lemma_step_retry(s2, number);
    assert(decode_line(s1, l2) == (s2, Some(hint)));

    lemma_decode_first_text_line(s2, blank, nothing);
    lemma_decode_line_without_bom(s2, blank);
    lemma_empty_dispatch_is_suppressed(s2);
    assert(split_lines(nothing) =~= Seq::<Seq<u8>>::empty());
    assert(decode_lines(s2, split_lines(r2)) =~= Seq::<Result<EventView, Error>>::empty());
    assert(decode_lines(s1, split_lines(r1)) =~= seq![Ok::<EventView, Error>(hint)]);
}

/// The byte-order mark, as the bytes that encode it.
pub open spec fn bom_bytes() -> Seq<u8> {
    seq![0xEFu8, 0xBBu8, 0xBFu8]
}

/// Does the stream start with a byte-order mark?
pub open spec fn starts_with_bom(bytes: Seq<u8>) -> bool {
    bytes.len() >= 3 && bytes[0] == 0xEF && bytes[1] == 0xBB && bytes[2] == 0xBF
}

/// The stream without the byte-order mark at its start, where it has one.
pub open spec fn strip_bom_bytes(bytes: Seq<u8>) -> Seq<u8> {
    if starts_with_bom(bytes) {
        bytes.skip(3)
    } else {
        bytes
    }
}

/// The decoder behind the start of the stream: it looks for no byte-order
/// mark any more.
pub open spec fn started() -> ParserView {
    ParserView { bom_consumed: true, ..ParserView::start() }
}

/// The byte-order mark is encoded as its three bytes.
pub proof fn lemma_encode_bom()
    ensures
        encode_scalar(BOM as u32) == bom_bytes(),
{
    let v: u32 = 0xFEFF;
    assert(BOM as u32 == v);
    assert(leading_byte_width_3(v) == 0xEF) by (bit_vector)
        requires
            v == 0xFEFF,
    ;
    assert(second_last_continuation_byte(v) == 0xBB) by (bit_vector)
        requires
            v == 0xFEFF,
    ;
    assert(last_continuation_byte(v) == 0xBF) by (bit_vector)
        requires
            v == 0xFEFF,
    ;
    assert(encode_scalar(v) =~= bom_bytes());
}

/// Bytes behind a byte-order mark are text where they are text without it,
/// and the text is the same behind the mark.
pub proof fn lemma_line_text_behind_bom(line: Seq<u8>)
    ensures
        line_text(bom_bytes() + line) == (match line_text(line) {
            Ok(text) => Ok::<Seq<char>, Error>(seq![BOM] + text),
            Err(e) => Err::<Seq<char>, Error>(e),
        }),
{
    let marked = bom_bytes() + line;
    lemma_encode_bom();
    if valid_utf8(line) {
        let text = decode_utf8(line);
        decode_utf8_encode_utf8(line);
        lemma_encode_concat(seq![BOM], text);
        reveal_with_fuel(encode_utf8, 2);
        assert(seq![BOM].drop_first() =~= Seq::<char>::empty());
        assert(encode_utf8(seq![BOM]) =~= bom_bytes());
        assert(marked == encode_utf8(seq![BOM] + text));
        encode_utf8_valid_utf8(seq![BOM] + text);
        encode_utf8_decode_utf8(seq![BOM] + text);
    } else {
        if valid_utf8(marked) {
            assert(marked[0] == 0xEF);
            assert(length_of_first_scalar(marked) == 3);
            assert(pop_first_scalar(marked) =~= line);
        }
    }
}

/// Text that starts with a byte-order mark has bytes that start with one.
pub proof fn lemma_bom_char_has_bom_bytes(line: Seq<u8>)
    requires
        valid_utf8(line),
        decode_utf8(line).len() > 0,
        decode_utf8(line)[0] == BOM,
    ensures
        starts_with_bom(line),
{
    let text = decode_utf8(line);
    decode_utf8_encode_utf8(line);
    lemma_encode_bom();
    let head = encode_scalar(text[0] as u32);
    let tail = encode_utf8(text.drop_first());
    assert(line == head + tail);
    assert(line[0] == head[0]);
    assert(line[1] == head[1]);
    assert(line[2] == head[2]);
}

/// The byte-order mark is looked for at the very start of the stream, and
/// nowhere else: decoding a stream is decoding what stands behind its
/// byte-order mark, where it starts with one, with a decoder that takes
/// every line as it is.
pub proof fn lemma_bom_is_stripped_once(bytes: Seq<u8>)
    ensures
        decode_stream(bytes) == decode_lines(started(), split_lines(strip_bom_bytes(bytes))),
{
    let s0 = ParserView::start();
    let mark = bom_bytes();
    if starts_with_bom(bytes) {
        let rest = bytes.skip(3);
        assert(bytes =~= mark + rest);
        lemma_run_length_is(mark, 3);
        lemma_lines_after_nothing(mark + rest);
        lemma_lines_after_run(Seq::empty(), mark, rest);
        assert(Seq::<u8>::empty() + mark =~= mark);
        lemma_lines_after_nothing(rest);
        lemma_run_length(rest);
        let e = run_length(rest) as int;
        // The first line, without the mark, and the lines behind it.
        let first = if e >= rest.len() {
            rest
        } else {
            rest.take(e)
        };
        let tail = if e >= rest.len() {
            Seq::<Seq<u8>>::empty()
        } else {
            split_lines(rest.skip(e + break_width(rest, e)))
        };
        assert(split_lines(bytes) =~= seq![mark + first] + tail);
        lemma_decode_lines_first(s0, Some(mark + first), tail);
        lemma_line_text_behind_bom(first);
        match line_text(first) {
            Ok(text) => {
                assert(strip_bom(seq![BOM] + text) =~= text);
                assert(decode_line(s0, seq![BOM] + text) == decode_line(started(), text));
            },
            Err(e) => {
                lemma_decode_lines_finished(ParserView { finished: true, ..s0 }, tail);
                lemma_decode_lines_finished(ParserView { finished: true, ..started() }, tail);
            },
        }
        if rest.len() == 0 {
            assert(first =~= Seq::<u8>::empty());
            assert(decode_utf8(first) =~= Seq::<char>::empty());
            assert(split_lines(rest) =~= Seq::<Seq<u8>>::empty());
            lemma_empty_dispatch_is_suppressed(started());
            assert(decode_lines(started(), tail) =~= Seq::<Result<EventView, Error>>::empty());
        } else {
            assert(split_lines(rest) =~= seq![first] + tail);
            lemma_decode_lines_first(started(), Some(first), tail);
        }
    } else {
        let lines = split_lines(bytes);
        if lines.len() > 0 {
            lemma_run_length(bytes);
            let e = run_length(bytes) as int;
            let first = lines[0];
            let tail = lines.drop_first();
            assert(first == if e >= bytes.len() {
                bytes
            } else {
                bytes.take(e)
            });
            assert(lines =~= seq![first] + tail);
            lemma_decode_lines_first(s0, Some(first), tail);
            lemma_decode_lines_first(started(), Some(first), tail);
            match line_text(first) {
                Ok(text) => {
                    if text.len() > 0 && text[0] == BOM {
                        lemma_bom_char_has_bom_bytes(first);
                        assert(bytes[0] == first[0]);
                        assert(bytes[1] == first[1]);
                        assert(bytes[2] == first[2]);
                    }
                    lemma_decode_line_without_bom(s0, text);
                    lemma_decode_line_without_bom(started(), text);
                },
                Err(e) => {
                    lemma_decode_lines_finished(ParserView { finished: true, ..s0 }, tail);
                    lemma_decode_lines_finished(ParserView { finished: true, ..started() }, tail);
                },
            }
        }
    }
}

} // verus!
