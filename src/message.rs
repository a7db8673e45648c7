use vstd::prelude::*;

verus! {

/// How a payload is to be read by whoever receives it.
#[derive(Clone, Copy, Debug, PartialEq, Eq, Structural)]
pub enum MessageKind {
    Text,
    Binary,
}

/// The errors that the relay reports to its callers.
#[derive(Clone, Copy, Debug, PartialEq, Eq, Structural)]
pub enum RelayError {
    /// The channel is at capacity under the block-on-full policy.
    Full,
    /// The channel was closed for good; nothing more is accepted.
    ChannelClosed,
    /// The submitted request was rejected before a message was built.
    MalformedInput,
}

/// The mathematical value of a message: its bytes and its kind.
pub ghost struct MessageModel {
    pub payload: Seq<u8>,
    pub kind: MessageKind,
}

/// An immutable, opaque payload with its kind.
#[derive(Debug)]
pub struct Message {
    payload: Vec<u8>,
    kind: MessageKind,
}

impl View for Message {
    type V = MessageModel;

    closed spec fn view(&self) -> MessageModel {
        MessageModel { payload: self.payload@, kind: self.kind }
    }
}

impl Message {
    pub fn new(payload: Vec<u8>, kind: MessageKind) -> (r: Message)
        ensures
            r@ == (MessageModel { payload: payload@, kind }),
    {
        Message { payload, kind }
    }

    pub fn payload(&self) -> (r: &Vec<u8>)
        ensures
            r@ == self@.payload,
    {
        &self.payload
    }

    pub fn kind(&self) -> (r: MessageKind)
        ensures
            r == self@.kind,
    {
        self.kind
    }

    pub fn len(&self) -> (r: usize)
        ensures
            r == self@.payload.len(),
    {
        self.payload.len()
    }

    pub fn into_payload(self) -> (r: Vec<u8>)
        ensures
            r@ == self@.payload,
    {
        self.payload
    }
}

} // verus!
