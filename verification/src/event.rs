//! The unit that decoding produces.

use std::time::Duration;
use vstd::prelude::*;

use crate::message::{Message, MessageView};

verus! {

/// The duration of `secs` whole seconds: what `Duration::from_secs` gives.
pub uninterp spec fn seconds(secs: u64) -> Duration;

/// The number of whole seconds that a duration holds: what
/// `Duration::as_secs` gives.
pub uninterp spec fn whole_seconds(d: Duration) -> u64;

/// `Duration::from_secs` makes a duration of `secs` whole seconds, and that
/// many whole seconds are in it.
pub assume_specification[ Duration::from_secs ](secs: u64) -> (d: Duration)
    ensures
        d == seconds(secs),
        whole_seconds(d) == secs,
;

/// `Duration::as_secs` gives the number of whole seconds of the duration.
pub assume_specification[ Duration::as_secs ](d: &Duration) -> (secs: u64)
    ensures
        secs == whole_seconds(*d),
;

/// What an optional text holds.
pub open spec fn optional_text(text: Option<String>) -> Option<Seq<char>> {
    match text {
        Some(s) => Some(s@),
        None => None,
    }
}

/// What an event holds, as mathematical values.
pub enum EventView {
    /// A hint for the delay before the consumer connects again.
    Retry(Duration),
    /// A message.
    Message(MessageView),
}

/// The kind of SSE event sent.
#[derive(Debug, Eq, PartialEq)]
pub enum Event {
    /// A retry message, with the delay in whole seconds.
    Retry(Duration),
    /// A data message.
    Message(Message),
}

impl View for Event {
    type V = EventView;

    open spec fn view(&self) -> EventView {
        match *self {
            Event::Retry(d) => EventView::Retry(d),
            Event::Message(m) => EventView::Message(m@),
        }
    }
}

impl Event {
    /// The hint to connect again after `secs` seconds.
    pub(crate) fn new_retry(secs: u64) -> (event: Event)
        ensures
            event@ == EventView::Retry(seconds(secs)),
    {
        Event::Retry(Duration::from_secs(secs))
    }

    /// The message that a dispatch emits.
    pub(crate) fn new_msg(name: String, data: Vec<u8>, id: Option<String>) -> (event: Event)
        requires
            data@.len() > 0,
        ensures
            event@ == EventView::Message(
                MessageView { id: optional_text(id), event: name@, data: data@ },
            ),
    {
        Event::Message(Message::new(name, data, id))
    }

    /// Check whether this is a Retry variant.
    pub fn is_retry(&self) -> (retry: bool)
        ensures
            retry == (self@ is Retry),
    {
        match self {
            Event::Retry(_) => true,
            Event::Message(_) => false,
        }
    }

    /// Check whether this is a Message variant.
    pub fn is_message(&self) -> (message: bool)
        ensures
            message == (self@ is Message),
    {
        match self {
            Event::Retry(_) => false,
            Event::Message(_) => true,
        }
    }
}

} // verus!
