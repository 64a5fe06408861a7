//! The encoder: from events to the wire.
//!
//! An event is written as a few chunks of bytes. The sending side hands the
//! chunks, one at a time, to a queue that holds a single chunk; the reading
//! side takes them out and lets its caller read the bytes, in their order,
//! into buffers of any size. When the reading side is gone, the sending
//! side is told so instead of waiting for room that never comes.

use async_channel::Receiver as QueueReceiver;
use async_channel::Sender as QueueSender;
use std::time::Duration;
use vstd::prelude::*;
use vstd::utf8::*;

use crate::error::Error;
use crate::event::whole_seconds;
use crate::text::{is_ascii_char, lemma_encode_ascii, lemma_encode_concat};

verus! {

/// The sending endpoint of the queue of `async_channel`.
#[verifier::external_type_specification]
#[verifier::external_body]
#[verifier::reject_recursive_types(T)]
pub struct ExQueueSender<T>(QueueSender<T>);

/// The receiving endpoint of the queue of `async_channel`.
#[verifier::external_type_specification]
#[verifier::external_body]
#[verifier::reject_recursive_types(T)]
pub struct ExQueueReceiver<T>(QueueReceiver<T>);

/// The character that writes the digit `d`.
pub open spec fn digit(d: nat) -> char
    recommends
        d < 10,
{
    (('0' as nat + d) as u8) as char
}

/// `n` written in base ten, without leading zeros.
pub open spec fn decimal(n: nat) -> Seq<char>
    decreases n,
{
    if n < 10 {
        seq![digit(n)]
    } else {
        decimal(n / 10).push(digit(n % 10))
    }
}

/// The line that names the event type.
pub open spec fn event_line(name: Seq<char>) -> Seq<char> {
    "event:"@ + name + "\n"@
}

/// The line that sets the id.
pub open spec fn id_line(id: Seq<char>) -> Seq<char> {
    "id:"@ + id + "\n"@
}

/// The line that holds the data, and the blank line that ends the event.
pub open spec fn data_block(data: Seq<char>) -> Seq<char> {
    "data:"@ + data + "\n\n"@
}

/// The line that holds the delay, in whole seconds, and the blank line that
/// ends the event.
pub open spec fn retry_block(secs: u64) -> Seq<char> {
    "retry:"@ + decimal(secs as nat) + "\n\n"@
}

/// The chunk that sets the id, where there is one to set.
pub open spec fn id_chunks(id: Option<Seq<char>>) -> Seq<Seq<u8>> {
    match id {
        Some(i) => seq![encode_utf8(id_line(i))],
        None => Seq::empty(),
    }
}

/// The chunks of a message, in the order in which they are sent.
pub open spec fn message_chunks(name: Seq<char>, data: Seq<char>, id: Option<Seq<char>>) -> Seq<
    Seq<u8>,
> {
    seq![encode_utf8(event_line(name))] + id_chunks(id) + seq![encode_utf8(data_block(data))]
}

/// The chunks of a retry hint, in the order in which they are sent.
pub open spec fn retry_chunks(secs: u64, id: Option<Seq<char>>) -> Seq<Seq<u8>> {
    id_chunks(id) + seq![encode_utf8(retry_block(secs))]
}

/// The bytes of the line that sets the id, where there is one to set.
pub open spec fn id_bytes(id: Option<Seq<char>>) -> Seq<u8> {
    match id {
        Some(i) => encode_utf8(id_line(i)),
        None => Seq::empty(),
    }
}

/// The bytes of a message on the wire: its chunks, one after the other.
pub open spec fn message_wire(name: Seq<char>, data: Seq<char>, id: Option<Seq<char>>) -> Seq<u8> {
    message_chunks(name, data, id).flatten()
}

/// The bytes of a retry hint on the wire: its chunks, one after the other.
pub open spec fn retry_wire(secs: u64, id: Option<Seq<char>>) -> Seq<u8> {
    retry_chunks(secs, id).flatten()
}

/// On the wire a message is the line of its event type, the line of its
/// id, where it has one, and its data with the blank line.
pub proof fn lemma_message_wire(name: Seq<char>, data: Seq<char>, id: Option<Seq<char>>)
    ensures
        message_wire(name, data, id) == encode_utf8(event_line(name)) + id_bytes(id) + encode_utf8(
            data_block(data),
        ),
{
    let first = seq![encode_utf8(event_line(name))];
    let last = seq![encode_utf8(data_block(data))];
    let middle = id_chunks(id);
    first.lemma_flatten_one_element();
    last.lemma_flatten_one_element();
    match id {
        Some(i) => {
            middle.lemma_flatten_one_element();
        },
        None => {},
    }
    assert(middle.flatten() =~= id_bytes(id));
    vstd::seq_lib::lemma_flatten_concat(first, middle);
    vstd::seq_lib::lemma_flatten_concat(first + middle, last);
}

/// On the wire a retry hint is the line of its id, where it has one, and
/// its delay with the blank line.
pub proof fn lemma_retry_wire(secs: u64, id: Option<Seq<char>>)
    ensures
        retry_wire(secs, id) == id_bytes(id) + encode_utf8(retry_block(secs)),
{
    let last = seq![encode_utf8(retry_block(secs))];
    let first = id_chunks(id);
    last.lemma_flatten_one_element();
    match id {
        Some(i) => {
            first.lemma_flatten_one_element();
        },
        None => {},
    }
    assert(first.flatten() =~= id_bytes(id));
    vstd::seq_lib::lemma_flatten_concat(first, last);
}

/// What an optional text holds.
pub open spec fn optional_str(text: Option<&str>) -> Option<Seq<char>> {
    match text {
        Some(s) => Some(s@),
        None => None,
    }
}

/// What a list of chunks holds.
pub open spec fn chunks_view(chunks: Seq<Vec<u8>>) -> Seq<Seq<u8>> {
    chunks.map_values(|chunk: Vec<u8>| chunk@)
}

/// The bytes of a label, a value and an ending, one after the other.
fn field_chunk(label: &str, value: &str, ending: &str) -> (chunk: Vec<u8>)
    ensures
        chunk@ == encode_utf8(label@ + value@ + ending@),
{
    let mut chunk: Vec<u8> = Vec::new();
    chunk.extend_from_slice(label.as_bytes());
    chunk.extend_from_slice(value.as_bytes());
    chunk.extend_from_slice(ending.as_bytes());
    proof {
        lemma_encode_concat(label@, value@);
        lemma_encode_concat(label@ + value@, ending@);
        assert(chunk@ =~= encode_utf8(label@) + encode_utf8(value@) + encode_utf8(ending@));
    }
    chunk
}

/// Writes `n` in base ten at the end of `out`.
fn push_decimal(out: &mut Vec<u8>, n: u64)
    ensures
        final(out)@ == old(out)@ + encode_utf8(decimal(n as nat)),
    decreases n,
{
    if n >= 10 {
        push_decimal(out, n / 10);
    }
    let d: u8 = (n % 10) as u8;
    out.push(48 + d);
    proof {
        let c = digit((n % 10) as nat);
        assert(c as u8 == 48 + d);
        assert(is_ascii_char(c));
        lemma_encode_ascii(c);
        if n >= 10 {
            let front = decimal((n / 10) as nat);
            assert(decimal(n as nat) =~= front + seq![c]);
            lemma_encode_concat(front, seq![c]);
        }
        assert(final(out)@ =~= old(out)@ + encode_utf8(decimal(n as nat)));
    }
}

/// The chunks that write a message on the wire.
pub fn encode_message(name: &str, data: &str, id: Option<&str>) -> (chunks: Vec<Vec<u8>>)
    ensures
        chunks_view(chunks@) == message_chunks(name@, data@, optional_str(id)),
{
    let mut chunks: Vec<Vec<u8>> = Vec::new();
    chunks.push(field_chunk("event:", name, "\n"));
    match id {
        Some(i) => {
            chunks.push(field_chunk("id:", i, "\n"));
        },
        None => {},
    }
    chunks.push(field_chunk("data:", data, "\n\n"));
    assert(chunks_view(chunks@) =~= message_chunks(name@, data@, optional_str(id)));
    chunks
}

/// The chunks that write a retry hint on the wire. The delay is cut down to
/// whole seconds.
pub fn encode_retry(dur: Duration, id: Option<&str>) -> (chunks: Vec<Vec<u8>>)
    ensures
        chunks_view(chunks@) == retry_chunks(whole_seconds(dur), optional_str(id)),
{
    let secs = dur.as_secs();
    let mut chunks: Vec<Vec<u8>> = Vec::new();
    match id {
        Some(i) => {
            chunks.push(field_chunk("id:", i, "\n"));
        },
        None => {},
    }
    let mut block: Vec<u8> = Vec::new();
    block.extend_from_slice("retry:".as_bytes());
    push_decimal(&mut block, secs);
    block.extend_from_slice("\n\n".as_bytes());
    proof {
        let number = decimal(secs as nat);
        lemma_encode_concat("retry:"@, number);
        lemma_encode_concat("retry:"@ + number, "\n\n"@);
        assert(block@ =~= encode_utf8(retry_block(secs)));
    }
    chunks.push(block);
    assert(chunks_view(chunks@) =~= retry_chunks(whole_seconds(dur), optional_str(id)));
    chunks
}

/// The number of chunks that the queue of a sending endpoint holds at most,
/// where it is bounded: what `async_channel::Sender::capacity` gives. A
/// queue keeps the capacity that it was made with.
pub uninterp spec fn sender_capacity(queue: QueueSender<Vec<u8>>) -> Option<usize>;

/// The number of chunks that the queue of a receiving endpoint holds at
/// most, where it is bounded: what `async_channel::Receiver::capacity`
/// gives. A queue keeps the capacity that it was made with.
pub uninterp spec fn receiver_capacity(queue: QueueReceiver<Vec<u8>>) -> Option<usize>;

/// `async_channel::bounded`: makes a queue for chunks that holds `cap` of
/// them at most, and gives its two endpoints. Both have that capacity. It
/// takes no capacity of zero.
#[verifier::external_body]
fn bounded(cap: usize) -> (ends: (QueueSender<Vec<u8>>, QueueReceiver<Vec<u8>>))
    requires
        cap > 0,
    ensures
        sender_capacity(ends.0) == Some(cap),
        receiver_capacity(ends.1) == Some(cap),
{
    async_channel::bounded(cap)
}

/// `async_channel::Sender::is_closed` says whether the queue is closed. It
/// is once every receiving endpoint, or every sending one, is gone, or once
/// one of them has closed it; what the call says may change from one call
/// to the next.
pub assume_specification<T>[ QueueSender::<T>::is_closed ](queue: &QueueSender<T>) -> (closed:
    bool)
;

/// `Clone` for `async_channel::Sender` gives one more sending endpoint of the
/// same queue.
pub assume_specification<T>[ <QueueSender<T> as Clone>::clone ](queue: &QueueSender<T>) -> (other:
    QueueSender<T>)
;

/// What the queue does with a chunk that is offered to it.
#[derive(Debug)]
pub enum Offered {
    /// The queue has taken the chunk.
    Taken,
    /// The queue is full: the chunk comes back.
    Full(Vec<u8>),
    /// The queue is closed: the chunk comes back.
    Closed(Vec<u8>),
}

/// What the queue gives when it is asked for a chunk.
#[derive(Debug)]
pub enum Fetched {
    /// The chunk that was first in the queue.
    Chunk(Vec<u8>),
    /// The queue is empty, and may be filled again.
    Empty,
    /// The queue is empty and closed: no chunk will come.
    Closed,
}

/// `async_channel::Sender::try_send`: offers `chunk` to the queue without
/// waiting. A queue that is full or closed hands the chunk back as it is.
#[verifier::external_body]
fn try_send(queue: &QueueSender<Vec<u8>>, chunk: Vec<u8>) -> (offered: Offered)
    ensures
        match offered {
            Offered::Taken => true,
            Offered::Full(back) => back == chunk,
            Offered::Closed(back) => back == chunk,
        },
{
    match queue.try_send(chunk) {
        Ok(()) => Offered::Taken,
        Err(async_channel::TrySendError::Full(back)) => Offered::Full(back),
        Err(async_channel::TrySendError::Closed(back)) => Offered::Closed(back),
    }
}

/// `async_channel::Receiver::try_recv`: asks the queue for a chunk without
/// waiting.
#[verifier::external_body]
fn try_recv(queue: &QueueReceiver<Vec<u8>>) -> (fetched: Fetched) {
    match queue.try_recv() {
        Ok(chunk) => Fetched::Chunk(chunk),
        Err(async_channel::TryRecvError::Empty) => Fetched::Empty,
        Err(async_channel::TryRecvError::Closed) => Fetched::Closed,
    }
}

/// The sending side of the encoder.
#[derive(Debug)]
pub struct Sender(QueueSender<Vec<u8>>);

impl Clone for Sender {
    /// One more sender on the same queue.
    fn clone(&self) -> (other: Sender) {
        Sender(self.0.clone())
    }
}

/// The reading side of the encoder: the bytes of the events that were sent,
/// in their order.
#[derive(Debug)]
pub struct Encoder {
    buf: Option<Vec<u8>>,
    receiver: QueueReceiver<Vec<u8>>,
    cursor: usize,
}

/// The bytes of a chunk that stand behind `cursor`.
pub open spec fn left_of(buf: Option<Vec<u8>>, cursor: usize) -> Seq<u8> {
    match buf {
        Some(b) => if cursor < b@.len() {
            b@.skip(cursor as int)
        } else {
            Seq::empty()
        },
        None => Seq::empty(),
    }
}

impl View for Encoder {
    type V = Seq<u8>;

    /// The bytes that the encoder holds and that have not been read yet.
    closed spec fn view(&self) -> Seq<u8> {
        left_of(self.buf, self.cursor)
    }
}

/// Create a new SSE encoder: its sending side and its reading side, with a
/// queue for one chunk between them. The reading side holds no bytes yet.
pub fn encode() -> (ends: (Sender, Encoder))
    ensures
        sender_capacity(ends.0.queue()) == Some(1usize),
        receiver_capacity(ends.1.queue()) == Some(1usize),
        ends.1@ == Seq::<u8>::empty(),
{
    let (sender, receiver) = bounded(1);
    (Sender(sender), Encoder { buf: None, receiver, cursor: 0 })
}

/// What sending gives: an error where the reading side is gone, else the
/// chunks to hand over.
pub fn unless_disconnected(disconnected: bool, chunks: Vec<Vec<u8>>) -> (plan: Result<
    Vec<Vec<u8>>,
    Error,
>)
    ensures
        plan == if disconnected {
            Err::<Vec<Vec<u8>>, Error>(Error::Disconnected)
        } else {
            Ok::<Vec<Vec<u8>>, Error>(chunks)
        },
{
    if disconnected {
        Err(Error::Disconnected)
    } else {
        Ok(chunks)
    }
}

/// What handing a chunk over gives: nothing where the queue took it, the
/// chunk where the queue is full, an error where the reading side is gone.
pub fn handed_over(offered: Offered) -> (left: Result<Option<Vec<u8>>, Error>)
    ensures
        left == (match offered {
            Offered::Taken => Ok::<Option<Vec<u8>>, Error>(None),
            Offered::Full(back) => Ok::<Option<Vec<u8>>, Error>(Some(back)),
            Offered::Closed(_) => Err::<Option<Vec<u8>>, Error>(Error::Disconnected),
        }),
{
    match offered {
        Offered::Taken => Ok(None),
        Offered::Full(back) => Ok(Some(back)),
        Offered::Closed(_) => Err(Error::Disconnected),
    }
}

impl Sender {
    /// The sending endpoint of the queue that this sender holds.
    pub closed spec fn queue(&self) -> QueueSender<Vec<u8>> {
        self.0
    }

    /// The sending endpoint of the queue, for a caller that waits on it.
    pub fn channel(&self) -> (queue: &QueueSender<Vec<u8>>)
        ensures
            *queue == self.queue(),
    {
        &self.0
    }

    /// Hands one chunk to the queue, without waiting. Where the queue is
    /// full the chunk comes back, to be handed over later; where the
    /// reading side is gone, sending has failed.
    pub fn try_send(&self, chunk: Vec<u8>) -> (left: Result<Option<Vec<u8>>, Error>)
        ensures
            match left {
                Ok(None) => true,
                Ok(Some(back)) => back == chunk,
                Err(e) => e == Error::Disconnected,
            },
    {
        handed_over(try_send(&self.0, chunk))
    }

    /// Send a new message over SSE: gives the chunks of the message, to be
    /// handed to the queue in their order. Where the reading side is gone,
    /// it fails at once.
    pub fn send(&self, name: &str, data: &str, id: Option<&str>) -> (plan: Result<
        Vec<Vec<u8>>,
        Error,
    >)
        ensures
            match plan {
                Ok(chunks) => chunks_view(chunks@) == message_chunks(
                    name@,
                    data@,
                    optional_str(id),
                ),
                Err(e) => e == Error::Disconnected,
            },
    {
        unless_disconnected(self.0.is_closed(), encode_message(name, data, id))
    }

    /// Send a new "retry" message over SSE: gives the chunks of the hint,
    /// to be handed to the queue in their order. Where the reading side is
    /// gone, it fails at once.
    pub fn send_retry(&self, dur: Duration, id: Option<&str>) -> (plan: Result<
        Vec<Vec<u8>>,
        Error,
    >)
        ensures
            match plan {
                Ok(chunks) => chunks_view(chunks@) == retry_chunks(
                    whole_seconds(dur),
                    optional_str(id),
                ),
                Err(e) => e == Error::Disconnected,
            },
    {
        unless_disconnected(self.0.is_closed(), encode_retry(dur, id))
    }
}

/// How many bytes a read moves: as many as are left, up to the room that
/// the buffer has.
pub open spec fn read_len(left: Seq<u8>, room: Seq<u8>) -> int {
    if room.len() < left.len() {
        room.len() as int
    } else {
        left.len() as int
    }
}

/// The buffer after a read: the bytes that were read stand at its start.
pub open spec fn read_into(left: Seq<u8>, room: Seq<u8>) -> Seq<u8> {
    let n = read_len(left, room);
    left.take(n) + room.skip(n)
}

/// What a read that had to ask the queue first gives: the number of bytes
/// read, or `None` where nothing can be read yet; the bytes that the
/// encoder holds after it; and the buffer after it. A closed queue reads as
/// no bytes: the end of the stream.
pub open spec fn read_fetched(left: Seq<u8>, fetched: Fetched, room: Seq<u8>) -> (
    Option<usize>,
    Seq<u8>,
    Seq<u8>,
) {
    let all = match fetched {
        Fetched::Chunk(chunk) => left + chunk@,
        _ => left,
    };
    if all.len() == 0 {
        (
            if fetched is Closed {
                Some(0usize)
            } else {
                None
            },
            all,
            room,
        )
    } else {
        let n = read_len(all, room);
        (Some(n as usize), all.skip(n), read_into(all, room))
    }
}

impl Encoder {
    /// The receiving endpoint of the queue that this encoder holds.
    pub closed spec fn queue(&self) -> QueueReceiver<Vec<u8>> {
        self.receiver
    }

    /// The receiving endpoint of the queue, for a caller that waits on it.
    pub fn receiver(&self) -> (queue: &QueueReceiver<Vec<u8>>)
        ensures
            *queue == self.queue(),
    {
        &self.receiver
    }

    /// Is there nothing left to read before the next chunk is taken from
    /// the queue?
    pub fn needs_chunk(&self) -> (needs: bool)
        ensures
            needs == (self@.len() == 0),
    {
        match &self.buf {
            Some(b) => self.cursor >= b.len(),
            None => true,
        }
    }

    /// Takes a chunk that came out of the queue: its bytes are read after
    /// those that the encoder still holds.
    pub fn accept(&mut self, chunk: Vec<u8>)
        ensures
            final(self)@ == old(self)@ + chunk@,
            final(self).queue() == old(self).queue(),
    {
        if self.needs_chunk() {
            self.buf = Some(chunk);
            self.cursor = 0;
            assert(self@ =~= old(self)@ + chunk@);
        } else {
            let mut held = self.buf.take().unwrap();
            held.extend_from_slice(chunk.as_slice());
            assert(held@.skip(self.cursor as int) =~= old(self)@ + chunk@);
            self.buf = Some(held);
        }
    }

    /// Reads the bytes that the encoder holds into `out`, as many as fit,
    /// and says how many they were.
    pub fn drain(&mut self, out: &mut [u8]) -> (n: usize)
        ensures
            n == read_len(old(self)@, old(out)@),
            final(out)@ == read_into(old(self)@, old(out)@),
            final(self)@ == old(self)@.skip(n as int),
            final(self).queue() == old(self).queue(),
    {
        if self.needs_chunk() {
            self.buf = None;
            self.cursor = 0;
            assert(out@ =~= read_into(old(self)@, old(out)@));
            assert(self@ =~= old(self)@.skip(0));
            return 0;
        }
        let held = self.buf.take().unwrap();
        let start = self.cursor;
        let left = held.len() - start;
        let n = if out.len() < left {
            out.len()
        } else {
            left
        };
        let mut i: usize = 0;
        while i < n
            invariant
                i <= n,
                n <= out@.len() == old(out)@.len(),
                start + n <= held@.len() <= usize::MAX,
                forall|j: int| 0 <= j < i ==> out@[j] == held@[start + j],
                forall|j: int| i <= j < out@.len() ==> out@[j] == old(out)@[j],
            decreases n - i,
        {
            out[i] = held[start + i];
            i = i + 1;
        }
        assert(out@ =~= read_into(old(self)@, old(out)@));
        if start + n == held.len() {
            self.cursor = 0;
            assert(self@ =~= old(self)@.skip(n as int));
        } else {
            self.cursor = start + n;
            self.buf = Some(held);
            assert(self@ =~= old(self)@.skip(n as int));
        }
        n
    }

    /// One read, given what the queue gave when a chunk was needed.
    pub fn read_with(&mut self, fetched: Fetched, out: &mut [u8]) -> (n: Option<usize>)
        ensures
            (n, final(self)@, final(out)@) == read_fetched(old(self)@, fetched, old(out)@),
            final(self).queue() == old(self).queue(),
    {
        let closed = match fetched {
            Fetched::Chunk(chunk) => {
                self.accept(chunk);
                false
            },
            Fetched::Empty => false,
            Fetched::Closed => true,
        };
        if self.needs_chunk() {
            assert(self@ =~= Seq::empty());
            if closed {
                Some(0)
            } else {
                None
            }
        } else {
            Some(self.drain(out))
        }
    }

    /// Reads the next bytes of the stream into `out`, and says how many
    /// they were. `None` says that nothing can be read yet: the queue is
    /// empty. No bytes, where `out` has room, are the end of the stream:
    /// every sender is gone.
    ///
    /// The queue is asked for a chunk only when the encoder holds nothing.
    pub fn read(&mut self, out: &mut [u8]) -> (n: Option<usize>)
        ensures
            old(self)@.len() > 0 ==> (n, final(self)@, final(out)@) == (
                Some(read_len(old(self)@, old(out)@) as usize),
                old(self)@.skip(read_len(old(self)@, old(out)@)),
                read_into(old(self)@, old(out)@),
            ),
            old(self)@.len() == 0 ==> exists|fetched: Fetched|
                (n, final(self)@, final(out)@) == read_fetched(
                    old(self)@,
                    fetched,
                    old(out)@,
                ),
            final(self).queue() == old(self).queue(),
    {
        if self.needs_chunk() {
            let fetched = try_recv(&self.receiver);
            self.read_with(fetched, out)
        } else {
            Some(self.drain(out))
        }
    }
}

} // verus!
