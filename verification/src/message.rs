//! The decoded message.

use vstd::prelude::*;

verus! {

/// What a message holds, as mathematical values.
pub struct MessageView {
    /// The last id that the stream had set when the message was dispatched.
    pub id: Option<Seq<char>>,
    /// The event type.
    pub event: Seq<char>,
    /// The payload.
    pub data: Seq<u8>,
}

/// An SSE message.
#[derive(Debug, PartialEq, Eq, Hash)]
pub struct Message {
    /// The ID of this event.
    pub(crate) id: Option<String>,
    /// The event type. Defaults to "message" if no event name is provided.
    pub(crate) event: String,
    /// The data for this event.
    pub(crate) data: Vec<u8>,
}

impl View for Message {
    type V = MessageView;

    closed spec fn view(&self) -> MessageView {
        MessageView {
            id: match self.id {
                Some(s) => Some(s@),
                None => None,
            },
            event: self.event@,
            data: self.data@,
        }
    }
}

impl Message {
    /// A message is never empty: a dispatch without data produces none.
    #[verifier::type_invariant]
    spec fn well_formed(self) -> bool {
        self.data@.len() > 0
    }

    /// Builds the message that a dispatch emits.
    pub(crate) fn new(name: String, data: Vec<u8>, id: Option<String>) -> (msg: Message)
        requires
            data@.len() > 0,
        ensures
            msg@ == (MessageView {
                id: match id {
                    Some(s) => Some(s@),
                    None => None,
                },
                event: name@,
                data: data@,
            }),
            msg@.data.len() > 0,
    {
        Message { id, event: name, data }
    }

    /// Get the message id.
    pub fn id(&self) -> (id: &Option<String>)
        ensures
            match *id {
                Some(s) => self@.id == Some(s@),
                None => self@.id is None,
            },
    {
        &self.id
    }

    /// Get the message event name.
    pub fn name(&self) -> (name: &String)
        ensures
            name@ == self@.event,
    {
        &self.event
    }

    /// Access the event data.
    pub fn data(&self) -> (data: &[u8])
        ensures
            data@ == self@.data,
            data@.len() > 0,
    {
        proof {
            use_type_invariant(self);
        }
        self.data.as_slice()
    }
}

} // verus!
