//! The decoder: from lines to events.
//!
//! A decoder keeps, between two lines, the event type and the data that the
//! fields of the current event have set so far, and the last id that the
//! stream has set. A blank line dispatches what has been gathered.

use vstd::prelude::*;
use vstd::string::StrSliceExecFns;
use vstd::utf8::*;

use crate::error::Error;
use crate::event::{optional_text, seconds, Event, EventView};
use crate::lines::{
    advance_lines, finish_lines, line_text, lines_from, optional_line, split_lines, text_of, Lines,
    LinesView, LF,
};
use crate::message::MessageView;

verus! {

/// The byte-order mark, as a character.
pub const BOM: char = '\u{feff}';

/// What the decoder remembers of the lines it has seen.
pub struct ParserView {
    /// The first line of the stream has been looked at for a byte-order mark.
    pub bom_consumed: bool,
    /// The event type that the current event has set, if it has set one.
    pub event_type: Option<Seq<char>>,
    /// The data of the current event: each value, followed by a line feed.
    pub data: Seq<u8>,
    /// The last id that the stream has set.
    pub last_id: Option<Seq<char>>,
    /// The decoder has ended: it gives nothing any more.
    pub finished: bool,
}

impl ParserView {
    /// The decoder at the start of a stream.
    pub open spec fn start() -> ParserView {
        ParserView {
            bom_consumed: false,
            event_type: None,
            data: Seq::empty(),
            last_id: None,
            finished: false,
        }
    }
}

/// How many characters stand in front of the first `:` of `line`: all of
/// them where `line` holds none.
pub open spec fn first_colon(line: Seq<char>) -> nat
    decreases line.len(),
{
    if line.len() == 0 || line[0] == ':' {
        0
    } else {
        1 + first_colon(line.drop_first())
    }
}

/// The name of the field that `line` holds: what stands in front of the
/// first `:`, or the whole line.
pub open spec fn field_name(line: Seq<char>) -> Seq<char> {
    line.take(first_colon(line) as int)
}

/// The value of the field that `line` holds: what stands behind the first
/// `:`, without one space at its start. A line without `:` has an empty
/// value.
pub open spec fn field_value(line: Seq<char>) -> Seq<char> {
    let c = first_colon(line) as int;
    if c >= line.len() {
        Seq::empty()
    } else if c + 1 < line.len() && line[c + 1] == ' ' {
        line.skip(c + 2)
    } else {
        line.skip(c + 1)
    }
}

/// Is `c` an ASCII digit?
pub open spec fn is_digit(c: char) -> bool {
    '0' <= c <= '9'
}

/// Does `s` hold ASCII digits only?
pub open spec fn all_digits(s: Seq<char>) -> bool {
    forall|i: int| 0 <= i < s.len() ==> is_digit(#[trigger] s[i])
}

/// The number that the digits of `s` write in base ten.
pub open spec fn decimal_value(s: Seq<char>) -> nat
    decreases s.len(),
{
    if s.len() == 0 {
        0
    } else {
        decimal_value(s.drop_last()) * 10 + (s.last() as nat - '0' as nat) as nat
    }
}

/// The seconds that the value of a `retry` field asks for: the value must
/// be made of digits, of one at least, and fit in 64 bits.
pub open spec fn parse_seconds(value: Seq<char>) -> Option<u64> {
    if value.len() > 0 && all_digits(value) && decimal_value(value) <= u64::MAX {
        Some(decimal_value(value) as u64)
    } else {
        None
    }
}

/// `data` without one line feed at its end.
pub open spec fn trim_line_feed(data: Seq<u8>) -> Seq<u8> {
    if data.len() > 0 && data.last() == LF {
        data.drop_last()
    } else {
        data
    }
}

/// A blank line: the message that has been gathered is emitted, unless its
/// data is empty. Event type and data start afresh either way; the id
/// stays.
pub open spec fn dispatch(st: ParserView) -> (ParserView, Option<EventView>) {
    let trimmed = trim_line_feed(st.data);
    let next = ParserView { event_type: None, data: Seq::empty(), ..st };
    if trimmed.len() > 0 {
        (
            next,
            Some(
                EventView::Message(
                    MessageView {
                        id: st.last_id,
                        event: match st.event_type {
                            Some(name) => name,
                            None => "message"@,
                        },
                        data: trimmed,
                    },
                ),
            ),
        )
    } else {
        (next, None)
    }
}

/// One line of an event stream: what the decoder remembers after it, and
/// the event that it emits, if it emits one.
pub open spec fn step(st: ParserView, line: Seq<char>) -> (ParserView, Option<EventView>) {
    if line.len() == 0 {
        dispatch(st)
    } else if line[0] == ':' {
        (st, None)
    } else {
        let name = field_name(line);
        let value = field_value(line);
        if name == "event"@ {
            (ParserView { event_type: Some(value), ..st }, None)
        } else if name == "data"@ {
            (ParserView { data: st.data + encode_utf8(value) + seq![LF], ..st }, None)
        } else if name == "id"@ {
            (ParserView { last_id: Some(value), ..st }, None)
        } else if name == "retry"@ {
            match parse_seconds(value) {
                Some(secs) => (st, Some(EventView::Retry(seconds(secs)))),
                None => (st, None),
            }
        } else {
            (st, None)
        }
    }
}

/// `line` without the byte-order mark at its start, where it has one.
pub open spec fn strip_bom(line: Seq<char>) -> Seq<char> {
    if line.len() > 0 && line[0] == BOM {
        line.skip(1)
    } else {
        line
    }
}

/// One line of text, as the decoder takes it: the first line of the stream
/// loses its byte-order mark, and a decoder that has ended takes nothing.
pub open spec fn decode_line(st: ParserView, line: Seq<char>) -> (ParserView, Option<EventView>) {
    if st.finished {
        (st, None)
    } else if st.bom_consumed {
        step(st, line)
    } else {
        step(ParserView { bom_consumed: true, ..st }, strip_bom(line))
    }
}

/// One line as the line reader gives it, text or not: a line that is not
/// valid UTF-8 is an error, and ends the decoder.
pub open spec fn decode_text(st: ParserView, text: Result<Seq<char>, Error>) -> (
    ParserView,
    Option<Result<EventView, Error>>,
) {
    if st.finished {
        (st, None)
    } else {
        match text {
            Ok(line) => {
                let (next, event) = decode_line(st, line);
                (
                    next,
                    match event {
                        Some(e) => Some(Ok(e)),
                        None => None,
                    },
                )
            },
            Err(e) => (ParserView { finished: true, ..st }, Some(Err(e))),
        }
    }
}

/// No item or one item, as a sequence.
pub open spec fn optional_item_seq(item: Option<Result<EventView, Error>>) -> Seq<
    Result<EventView, Error>,
> {
    match item {
        Some(i) => seq![i],
        None => Seq::empty(),
    }
}

/// What the decoder gives on `lines`, the lines of a stream as bytes.
pub open spec fn decode_lines(st: ParserView, lines: Seq<Seq<u8>>) -> Seq<Result<EventView, Error>>
    decreases lines.len(),
{
    if lines.len() == 0 {
        Seq::empty()
    } else {
        let (next, item) = decode_text(st, line_text(lines[0]));
        optional_item_seq(item) + decode_lines(next, lines.drop_first())
    }
}

/// What decoding a whole stream gives: the events in their order, and an
/// error at the end where a line is not valid UTF-8.
pub open spec fn decode_stream(bytes: Seq<u8>) -> Seq<Result<EventView, Error>> {
    decode_lines(ParserView::start(), split_lines(bytes))
}

/// One step of the decoder on the bytes that are available: the state after
/// it, how many bytes were used, and what the step gives, if anything.
pub open spec fn advance_decoder(st: DecoderView, available: Seq<u8>) -> (
    DecoderView,
    int,
    Option<Result<EventView, Error>>,
) {
    if st.parser.finished {
        (st, 0, None)
    } else {
        let (lines, used, raw) = advance_lines(st.lines, available);
        match raw {
            Some(l) => {
                let (parser, item) = decode_text(st.parser, line_text(l));
                (DecoderView { lines, parser }, used, item)
            },
            None => (DecoderView { lines, parser: st.parser }, used, None),
        }
    }
}

/// The end of the stream: the last line, where it had no ending, is taken,
/// and the decoder has ended.
pub open spec fn finish_decoder(st: DecoderView) -> (
    DecoderView,
    Option<Result<EventView, Error>>,
) {
    if st.parser.finished {
        (st, None)
    } else {
        let lines = LinesView { pending: Seq::empty(), after_cr: st.lines.after_cr };
        match finish_lines(st.lines) {
            Some(l) => {
                let (parser, item) = decode_text(st.parser, line_text(l));
                (DecoderView { lines, parser: ParserView { finished: true, ..parser } }, item)
            },
            None => (
                DecoderView { lines, parser: ParserView { finished: true, ..st.parser } },
                None,
            ),
        }
    }
}

/// What an executable item holds.
pub open spec fn item_view(item: Result<Event, Error>) -> Result<EventView, Error> {
    match item {
        Ok(e) => Ok(e@),
        Err(e) => Err(e),
    }
}

/// What an optional executable item holds.
pub open spec fn optional_item(item: Option<Result<Event, Error>>) -> Option<
    Result<EventView, Error>,
> {
    match item {
        Some(i) => Some(item_view(i)),
        None => None,
    }
}

/// What a list of executable items holds.
pub open spec fn items_view(items: Seq<Result<Event, Error>>) -> Seq<Result<EventView, Error>> {
    items.map_values(|item: Result<Event, Error>| item_view(item))
}

/// What one step of the decoder did.
#[derive(Debug)]
pub struct Step {
    /// How many of the available bytes the step used. The caller takes them
    /// off its source.
    pub used: usize,
    /// What the step gives: an event, or the error that ends the decoder.
    pub item: Option<Result<Event, Error>>,
}

/// What an optional event holds.
pub open spec fn optional_event(event: Option<Event>) -> Option<EventView> {
    match event {
        Some(e) => Some(e@),
        None => None,
    }
}

/// The place of the first `:` of `line`, which holds `total` characters.
fn find_colon(line: &str, total: usize) -> (k: usize)
    requires
        total == line@.len(),
    ensures
        k == first_colon(line@),
{
    let mut k: usize = 0;
    let mut found = false;
    let mut n: usize = 0;
    for c in it: line.chars()
        invariant
            it.seq() == line@,
            n == it.index(),
            total == line@.len(),
            k <= n <= total,
            found ==> k < n && line@[k as int] == ':',
            !found ==> k == n,
            forall|j: int| 0 <= j < k ==> #[trigger] line@[j] != ':',
    {
        if !found {
            if c == ':' {
                found = true;
            } else {
                k = k + 1;
            }
        }
        n = n + 1;
    }
    proof {
        lemma_first_colon_is(line@, k as int);
    }
    k
}

/// Do `a` and `b` hold the same text?
fn text_eq(a: &str, b: &str) -> (same: bool)
    ensures
        same == (a@ == b@),
{
    let x = a.as_bytes();
    let y = b.as_bytes();
    proof {
        encode_utf8_decode_utf8(a@);
        encode_utf8_decode_utf8(b@);
    }
    if x.len() != y.len() {
        return false;
    }
    let mut i: usize = 0;
    while i < x.len()
        invariant
            i <= x@.len(),
            x@.len() == y@.len(),
            x@ == encode_utf8(a@),
            y@ == encode_utf8(b@),
            forall|j: int| 0 <= j < i ==> x@[j] == y@[j],
        decreases x@.len() - i,
    {
        if x[i] != y[i] {
            return false;
        }
        i = i + 1;
    }
    assert(x@ =~= y@);
    true
}

/// Reads the value of a `retry` field.
fn parse_retry(value: &str) -> (secs: Option<u64>)
    ensures
        secs == parse_seconds(value@),
{
    let total = value.unicode_len();
    if total == 0 {
        return None;
    }
    let mut acc: u64 = 0;
    let mut ok = true;
    let mut n: usize = 0;
    assert(value@.take(0) =~= Seq::empty());
    for c in it: value.chars()
        invariant
            it.seq() == value@,
            n == it.index(),
            total == value@.len(),
            n <= total,
            ok ==> all_digits(value@.take(n as int)) && acc == decimal_value(
                value@.take(n as int),
            ),
            !ok ==> parse_seconds(value@) is None,
    {
        if ok {
            let ghost before = value@.take(n as int);
            let ghost after = value@.take(n + 1);
            assert(after.drop_last() =~= before);
            assert(after.last() == c);
            if '0' <= c && c <= '9' {
                let d: u64 = (c as u32 - 48) as u64;
                assert(all_digits(after)) by {
                    assert forall|i: int| 0 <= i < after.len() implies is_digit(
                        #[trigger] after[i],
                    ) by {
                        if i < n {
                            assert(after[i] == before[i]);
                        }
                    }
                }
                assert(decimal_value(after) == acc * 10 + d);
                let next = match acc.checked_mul(10) {
                    Some(m) => m.checked_add(d),
                    None => None,
                };
                match next {
                    Some(v) => {
                        acc = v;
                    },
                    None => {
                        proof {
                            if all_digits(value@) {
                                lemma_decimal_value_grows(value@, n + 1);
                            }
                        }
                        ok = false;
                    },
                }
            } else {
                assert(!is_digit(value@[n as int]));
                ok = false;
            }
        }
        n = n + 1;
    }
    assert(value@.take(n as int) =~= value@);
    if ok {
        Some(acc)
    } else {
        None
    }
}

/// What a decoder holds, as mathematical values.
pub struct DecoderView {
    /// The line reader.
    pub lines: LinesView,
    /// What is remembered of the lines.
    pub parser: ParserView,
}

impl DecoderView {
    /// The decoder at the start of a stream.
    pub open spec fn start() -> DecoderView {
        DecoderView { lines: LinesView::start(), parser: ParserView::start() }
    }
}

/// An SSE protocol decoder. It is handed the bytes of the stream, and gives
/// the events.
#[derive(Debug)]
pub struct Decoder {
    /// The line reader.
    lines: Lines,
    /// Has the first line been looked at for a byte-order mark?
    processed_bom: bool,
    /// The _last event ID_ buffer.
    last_event_id: Option<String>,
    /// The _event type_ buffer.
    event_type: Option<String>,
    /// The _data_ buffer.
    data: Vec<u8>,
    /// Has the decoder ended?
    finished: bool,
}

impl View for Decoder {
    type V = DecoderView;

    closed spec fn view(&self) -> DecoderView {
        DecoderView {
            lines: self.lines@,
            parser: ParserView {
                bom_consumed: self.processed_bom,
                event_type: optional_text(self.event_type),
                data: self.data@,
                last_id: optional_text(self.last_event_id),
                finished: self.finished,
            },
        }
    }
}

/// Decode a new incoming SSE connection.
pub fn decode() -> (decoder: Decoder)
    ensures
        decoder@ == DecoderView::start(),
{
    Decoder {
        lines: Lines::new(),
        processed_bom: false,
        last_event_id: None,
        event_type: None,
        data: Vec::new(),
        finished: false,
    }
}

impl Decoder {
    /// A blank line: emits the message that has been gathered, if it has
    /// data, and starts the next one.
    fn take_message(&mut self) -> (event: Option<Event>)
        ensures
            (final(self)@.parser, optional_event(event)) == dispatch(old(self)@.parser),
            final(self)@.lines == old(self)@.lines,
    {
        let mut data: Vec<u8> = Vec::new();
        core::mem::swap(&mut self.data, &mut data);
        let event_type = self.event_type.take();
        let n = data.len();
        if n > 0 && data[n - 1] == LF {
            data.pop();
            assert(data@ =~= trim_line_feed(old(self)@.parser.data));
        }
        if data.len() > 0 {
            let name = match event_type {
                Some(name) => name,
                None => "message".to_owned(),
            };
            let id = self.last_event_id.clone();
            Some(Event::new_msg(name, data, id))
        } else {
            None
        }
    }

    /// One line, with its field.
    fn step(&mut self, line: &str) -> (event: Option<Event>)
        ensures
            (final(self)@.parser, optional_event(event)) == step(old(self)@.parser, line@),
            final(self)@.lines == old(self)@.lines,
    {
        let total = line.unicode_len();
        if total == 0 {
            return self.take_message();
        }
        let colon = find_colon(line, total);
        proof {
            lemma_first_colon(line@);
        }
        if colon == 0 {
            return None;
        }
        let name = line.substring_char(0, colon);
        let value = if colon == total {
            line.substring_char(total, total)
        } else if colon + 1 < total && line.get_char(colon + 1) == ' ' {
            line.substring_char(colon + 2, total)
        } else {
            line.substring_char(colon + 1, total)
        };
        assert(name@ =~= field_name(line@));
        assert(value@ =~= field_value(line@));
        if text_eq(name, "event") {
            self.event_type = Some(value.to_owned());
            None
        } else if text_eq(name, "data") {
            self.data.extend_from_slice(value.as_bytes());
            self.data.push(LF);
            assert(self.data@ =~= old(self)@.parser.data + encode_utf8(value@) + seq![LF]);
            None
        } else if text_eq(name, "id") {
            self.last_event_id = Some(value.to_owned());
            None
        } else if text_eq(name, "retry") {
            match parse_retry(value) {
                Some(secs) => Some(Event::new_retry(secs)),
                None => None,
            }
        } else {
            None
        }
    }

    /// Takes one line of the stream, and gives the event that the line
    /// completes, if it completes one.
    pub fn process_line(&mut self, line: &str) -> (event: Option<Event>)
        ensures
            (final(self)@.parser, optional_event(event)) == decode_line(
                old(self)@.parser,
                line@,
            ),
            final(self)@.lines == old(self)@.lines,
    {
        if self.finished {
            None
        } else if self.processed_bom {
            self.step(line)
        } else {
            self.processed_bom = true;
            let total = line.unicode_len();
            if total > 0 && line.get_char(0) == BOM {
                let rest = line.substring_char(1, total);
                assert(rest@ =~= strip_bom(line@));
                self.step(rest)
            } else {
                self.step(line)
            }
        }
    }

    /// Has the decoder ended? It has after the end of the stream, and after
    /// an error.
    pub fn is_finished(&self) -> (finished: bool)
        ensures
            finished == self@.parser.finished,
    {
        self.finished
    }

    /// Takes what the line reader found: a line of text, or the error that
    /// ends the decoder.
    fn process_text(&mut self, line: Result<String, Error>) -> (item: Option<Result<Event, Error>>)
        ensures
            (final(self)@.parser, optional_item(item)) == decode_text(
                old(self)@.parser,
                text_of(line),
            ),
            final(self)@.lines == old(self)@.lines,
    {
        if self.finished {
            return None;
        }
        match line {
            Ok(text) => {
                match self.process_line(text.as_str()) {
                    Some(event) => Some(Ok(event)),
                    None => None,
                }
            },
            Err(e) => {
                self.finished = true;
                Some(Err(e))
            },
        }
    }

    /// One step on the bytes that the source has available: the decoder
    /// reads up to the end of one line, and takes the line.
    ///
    /// No bytes are no step: at the end of the stream, call `finish`.
    pub fn advance(&mut self, available: &[u8]) -> (step: Step)
        ensures
            (final(self)@, step.used as int, optional_item(step.item)) == advance_decoder(
                old(self)@,
                available@,
            ),
    {
        if self.finished {
            return Step { used: 0, item: None };
        }
        let found = self.lines.advance(available);
        match found.line {
            Some(line) => {
                let item = self.process_text(line);
                Step { used: found.used, item }
            },
            None => Step { used: found.used, item: None },
        }
    }

    /// The end of the stream: takes the last line, where the stream ended
    /// in a line without an ending. The decoder has ended after it.
    pub fn finish(&mut self) -> (item: Option<Result<Event, Error>>)
        ensures
            (final(self)@, optional_item(item)) == finish_decoder(old(self)@),
    {
        if self.finished {
            return None;
        }
        let item = match self.lines.finish() {
            Some(line) => self.process_text(line),
            None => None,
        };
        self.finished = true;
        item
    }
}

/// Decodes a whole stream that is at hand.
pub fn decode_bytes(bytes: &[u8]) -> (events: Vec<Result<Event, Error>>)
    ensures
        items_view(events@) == decode_stream(bytes@),
{
    let mut decoder = decode();
    let mut events: Vec<Result<Event, Error>> = Vec::new();
    let mut pos: usize = 0;
    let n = bytes.len();
    proof {
        lemma_decode_rest_at_start(bytes@);
        assert(bytes@.skip(0) =~= bytes@);
        assert(items_view(events@) =~= Seq::empty());
    }
    while pos < n && !decoder.is_finished()
        invariant
            pos <= n == bytes@.len(),
            items_view(events@) + decode_rest(decoder@, bytes@.skip(pos as int)) == decode_stream(
                bytes@,
            ),
        decreases n - pos,
    {
        let available = &bytes[pos..n];
        let ghost before = decoder@;
        let ghost done = items_view(events@);
        let step = decoder.advance(available);
        proof {
            let nothing = Seq::<u8>::empty();
            assert(available@ =~= bytes@.skip(pos as int));
            lemma_advance_decoder(before, available@, nothing);
            assert(available@ + nothing =~= available@);
            assert(available@.skip(step.used as int) + nothing =~= bytes@.skip(pos + step.used));
        }
        pos = pos + step.used;
        match step.item {
            Some(item) => {
                events.push(item);
                assert(items_view(events@) =~= done + seq![item_view(item)]);
            },
            None => {
                assert(items_view(events@) =~= done + Seq::empty());
            },
        }
    }
    let ghost before = decoder@;
    let ghost done = items_view(events@);
    proof {
        lemma_finish_decoder(before);
        if !before.parser.finished {
            assert(bytes@.skip(pos as int) =~= Seq::empty());
        } else {
            lemma_decode_lines_finished(
                before.parser,
                lines_from(before.lines, bytes@.skip(pos as int)),
            );
        }
    }
    match decoder.finish() {
        Some(item) => {
            events.push(item);
            assert(items_view(events@) =~= done + seq![item_view(item)]);
        },
        None => {
            assert(items_view(events@) =~= done + Seq::empty());
        },
    }
    events
}

/// What a decoder in state `st` gives when `rest` is all that is left of
/// its stream.
pub open spec fn decode_rest(st: DecoderView, rest: Seq<u8>) -> Seq<Result<EventView, Error>> {
    decode_lines(st.parser, lines_from(st.lines, rest))
}

/// A decoder at the start of a stream gives what decoding the stream gives.
pub proof fn lemma_decode_rest_at_start(bytes: Seq<u8>)
    ensures
        decode_rest(DecoderView::start(), bytes) == decode_stream(bytes),
{
    crate::lines::lemma_lines_from_start(bytes);
}

/// Where the input is cut changes nothing: a decoder that is handed
/// `available` now and `rest` later gives what it would give on the two
/// together.
pub proof fn lemma_advance_decoder(st: DecoderView, available: Seq<u8>, rest: Seq<u8>)
    ensures
        ({
            let (next, used, item) = advance_decoder(st, available);
            &&& 0 <= used <= available.len()
            &&& available.len() > 0 && !st.parser.finished ==> used > 0
            &&& decode_rest(st, available + rest) == optional_item_seq(item) + decode_rest(
                next,
                available.skip(used) + rest,
            )
        }),
{
    let (next, used, item) = advance_decoder(st, available);
    if st.parser.finished {
        assert(available.skip(0) =~= available);
        lemma_decode_lines_finished(st.parser, lines_from(st.lines, available + rest));
    } else {
        crate::lines::lemma_advance_lines(st.lines, available, rest);
        let (lines, used, raw) = advance_lines(st.lines, available);
        lemma_decode_lines_first(st.parser, raw, lines_from(lines, available.skip(used) + rest));
    }
}

/// At the end of the stream the decoder gives what its last line gives,
/// and nothing after it.
pub proof fn lemma_finish_decoder(st: DecoderView)
    ensures
        decode_rest(st, Seq::empty()) == optional_item_seq(finish_decoder(st).1),
        finish_decoder(st).0.parser.finished,
{
    let nothing = Seq::<Seq<u8>>::empty();
    if st.parser.finished {
        lemma_decode_lines_finished(st.parser, lines_from(st.lines, Seq::empty()));
    } else {
        crate::lines::lemma_finish_lines(st.lines);
        let last = finish_lines(st.lines);
        lemma_decode_lines_first(st.parser, last, nothing);
        assert(optional_line(last) + nothing =~= optional_line(last));
        match last {
            Some(l) => {
                let (parser, item) = decode_text(st.parser, line_text(l));
                assert(optional_item_seq(item) + decode_lines(parser, nothing)
                    =~= optional_item_seq(item));
            },
            None => {},
        }
    }
}

/// A decoder that has ended gives nothing.
pub proof fn lemma_decode_lines_finished(st: ParserView, lines: Seq<Seq<u8>>)
    requires
        st.finished,
    ensures
        decode_lines(st, lines) == Seq::<Result<EventView, Error>>::empty(),
    decreases lines.len(),
{
    if lines.len() > 0 {
        lemma_decode_lines_finished(st, lines.drop_first());
    }
}

/// What the decoder gives on a first line, if there is one, and on the
/// lines after it.
pub proof fn lemma_decode_lines_first(st: ParserView, first: Option<Seq<u8>>, rest: Seq<Seq<u8>>)
    ensures
        decode_lines(st, optional_line(first) + rest) == (match first {
            Some(l) => {
                let (next, item) = decode_text(st, line_text(l));
                optional_item_seq(item) + decode_lines(next, rest)
            },
            None => decode_lines(st, rest),
        }),
{
    let all = optional_line(first) + rest;
    match first {
        Some(l) => {
            assert(all[0] == l);
            assert(all.drop_first() =~= rest);
        },
        None => {
            assert(all =~= rest);
        },
    }
}

/// `first_colon` is the place of the first `:`.
pub proof fn lemma_first_colon(line: Seq<char>)
    ensures
        first_colon(line) <= line.len(),
        forall|j: int| 0 <= j < first_colon(line) ==> #[trigger] line[j] != ':',
        first_colon(line) < line.len() ==> line[first_colon(line) as int] == ':',
    decreases line.len(),
{
    if line.len() == 0 || line[0] == ':' {
    } else {
        let t = line.drop_first();
        lemma_first_colon(t);
        assert forall|j: int| 0 <= j < first_colon(line) implies #[trigger] line[j] != ':' by {
            if j > 0 {
                assert(line[j] == t[j - 1]);
            }
        }
        assert(first_colon(line) < line.len() ==> line[first_colon(line) as int] == t[first_colon(
            t,
        ) as int]);
    }
}

/// A place in front of which no `:` stands, and which holds one or is the
/// end, is `first_colon`.
pub proof fn lemma_first_colon_is(line: Seq<char>, k: int)
    requires
        0 <= k <= line.len(),
        forall|j: int| 0 <= j < k ==> #[trigger] line[j] != ':',
        k < line.len() ==> line[k] == ':',
    ensures
        first_colon(line) == k,
{
    lemma_first_colon(line);
    let c = first_colon(line) as int;
    if c < k {
        assert(line[c] != ':');
    } else if k < c {
        assert(line[k] != ':');
    }
}

/// A number is no smaller than what its first digits write.
pub proof fn lemma_decimal_value_grows(s: Seq<char>, k: int)
    requires
        0 <= k <= s.len(),
        all_digits(s),
    ensures
        decimal_value(s.take(k)) <= decimal_value(s),
    decreases s.len() - k,
{
    if k == s.len() {
        assert(s.take(k) =~= s);
    } else {
        let t = s.drop_last();
        assert(all_digits(t)) by {
            assert forall|i: int| 0 <= i < t.len() implies is_digit(#[trigger] t[i]) by {
                assert(t[i] == s[i]);
            }
        }
        assert(is_digit(s[s.len() - 1]));
        if k == t.len() {
            assert(s.take(k) =~= t);
        } else {
            lemma_decimal_value_grows(s, k + 1);
            let u = s.take(k + 1);
            assert(u.drop_last() =~= s.take(k));
            assert(is_digit(s[k]));
            assert(u.last() == s[k]);
        }
    }
}

} // verus!
