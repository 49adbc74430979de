//! The shape a message takes when it is handed to an embedding host: a
//! keyed payload with its extra data, both drawn from closed sets.

use vstd::prelude::*;

verus! {

/// The payload of a [`ClientMessage`].
#[derive(Clone, Copy, Debug, PartialEq, Eq, Structural)]
pub enum Data {
    Empty,
}

/// The extra data of a [`ClientMessage`].
#[derive(Clone, Copy, Debug, PartialEq, Eq, Structural)]
pub enum Metadata {
    Empty,
}

/// A payload shape that carries nothing.
#[derive(Clone, Copy, Debug, PartialEq, Eq, Structural)]
pub enum Empty {
    Empty,
}

/// One message as an embedding host sees it.
#[derive(Debug)]
pub struct ClientMessage {
    pub key: String,
    pub data: Data,
    pub metadata: Metadata,
}

impl ClientMessage {
    pub fn new(key: String, data: Data, metadata: Metadata) -> (r: ClientMessage)
        ensures
            r.key@ == key@,
            r.data == data,
            r.metadata == metadata,
    {
        ClientMessage { key, data, metadata }
    }
}

} // verus!
