//! The wire entity exchanged with clients and, in a serialized form, with the
//! bot. A `Message` carries an opaque id, a tagged type, an optional server
//! id, an optional resource id (set by the server when it ingests a message
//! from a specific endpoint), typed payloads and an ordered list of errors.
//! An empty error list means success.

use vstd::prelude::*;

verus! {

/// Tagged variant of a message. `Connect`, `Disconnect`, `Ping`, `Pong`,
/// `Test`, `Resume` and `Pause` are reserved for the system; inbound
/// encrypted frames bearing them are rejected by the router.
#[derive(Clone, Copy, Debug, PartialEq, Eq, Structural)]
pub enum Type {
    Init,
    Connect,
    Disconnect,
    Ping,
    Pong,
    Test,
    Resume,
    Pause,
    Error,
}

/// Payload of a message; a closed set of shapes.
#[derive(Clone, Copy, Debug, PartialEq, Eq, Structural)]
pub enum Data {
    Empty,
    Ping,
    Pong,
}

/// Extra data sent along with a message; a closed set of shapes.
#[derive(Clone, Copy, Debug, PartialEq, Eq, Structural)]
pub enum Metadata {
    Empty,
}

/// Controls how the text of an [`Error`] is treated by the bot.
#[derive(Clone, Copy, Debug, PartialEq, Eq, Structural)]
pub enum ErrorType {
    /// The text is a locale error code.
    Code,
    /// The text is a plain message.
    Message,
}

/// One entry of a message's error list.
#[derive(Clone, Debug)]
pub struct Error {
    pub error_type: ErrorType,
    pub error_message: Vec<u8>,
}

/// Mathematical model of an [`Error`].
pub struct ErrorView {
    pub error_type: ErrorType,
    pub error_message: Seq<u8>,
}

impl View for Error {
    type V = ErrorView;

    open spec fn view(&self) -> ErrorView {
        ErrorView { error_type: self.error_type, error_message: self.error_message@ }
    }
}

impl Error {
    pub fn new(error_type: ErrorType, error_message: Vec<u8>) -> (r: Error)
        ensures
            r@ == (ErrorView { error_type, error_message: error_message@ }),
    {
        Error { error_type, error_message }
    }
}

/// One message routed between the bot and a client.
#[derive(Clone, Debug)]
pub struct Message {
    /// Opaque identifier set by the originator, preserved across routing.
    pub id: Vec<u8>,
    pub message_type: Type,
    /// Bytes identifying the client; an outbound message must carry one
    /// before it can be encoded.
    pub server_id: Option<Vec<u8>>,
    /// Set by the server when it ingests a message from an endpoint.
    pub resource_id: Option<u64>,
    pub data: Data,
    pub metadata: Metadata,
    /// Accumulates across routing; never silently dropped.
    pub errors: Vec<Error>,
}

/// Mathematical model of a [`Message`].
pub struct MessageView {
    pub id: Seq<u8>,
    pub message_type: Type,
    pub server_id: Option<Seq<u8>>,
    pub resource_id: Option<u64>,
    pub data: Data,
    pub metadata: Metadata,
    pub errors: Seq<ErrorView>,
}

impl View for Message {
    type V = MessageView;

    open spec fn view(&self) -> MessageView {
        MessageView {
            id: self.id@,
            message_type: self.message_type,
            server_id: match self.server_id {
                Some(ref v) => Some(v@),
                None => None,
            },
            resource_id: self.resource_id,
            data: self.data,
            metadata: self.metadata,
            errors: Seq::new(self.errors@.len(), |i: int| self.errors@[i]@),
        }
    }
}

impl Message {
    pub fn new(message_type: Type) -> (r: Message)
        ensures
            r@ == (MessageView {
                id: Seq::<u8>::empty(),
                message_type,
                server_id: None::<Seq<u8>>,
                resource_id: None::<u64>,
                data: Data::Empty,
                metadata: Metadata::Empty,
                errors: Seq::<ErrorView>::empty(),
            }),
    {
        let r = Message {
            id: Vec::new(),
            message_type,
            server_id: None,
            resource_id: None,
            data: Data::Empty,
            metadata: Metadata::Empty,
            errors: Vec::new(),
        };
        proof {
            assert(r@.id =~= Seq::<u8>::empty());
            assert(r@.errors =~= Seq::<ErrorView>::empty());
        }
        r
    }

    /// Appends one error entry; every other field is kept.
    pub fn add_error(&mut self, error_type: ErrorType, error_message: Vec<u8>)
        ensures
            final(self)@ == (MessageView {
                errors: old(self)@.errors.push(ErrorView {
                    error_type,
                    error_message: error_message@,
                }),
                ..old(self)@
            }),
    {
        let ghost pre = self@;
        self.errors.push(Error { error_type, error_message });
        proof {
            assert(self@.errors =~= pre.errors.push(ErrorView {
                error_type,
                error_message: error_message@,
            }));
        }
    }

    /// Records where the message came in, keeping every other field.
    pub fn set_resource(&mut self, resource_id: u64)
        ensures
            final(self)@ == (MessageView { resource_id: Some(resource_id), ..old(self)@ }),
    {
        let ghost pre = self@;
        self.resource_id = Some(resource_id);
        proof {
            assert(self@.errors =~= pre.errors);
        }
    }
}

} // verus!
