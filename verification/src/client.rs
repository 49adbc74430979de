//! State for one connected endpoint: transport handles, identity, key, and
//! the per-client liveness latch. A client starts in the lobby (no server
//! id); the identity handshake fills `server_id`, and the first packet that
//! opens under a key binds that key to the endpoint.

use vstd::prelude::*;
use crate::codec::{encode, is_encoding_of, CodecError};
use crate::frame::{emit_frame, spec_frame};
use crate::message::{Data, Message, MessageView, Metadata, Type};
use crate::serial::wire_of;

verus! {

/// After this many milliseconds without a pong, a ping is due.
pub const PING_AFTER_MS: u64 = 5000;

/// After this many milliseconds without a pong, the client is dropped.
pub const DISCONNECT_AFTER_MS: u64 = 10000;

/// One endpoint admitted past accept.
pub struct Client {
    /// Opaque transport handle used to address outgoing frames.
    pub endpoint: u64,
    /// Opaque transport resource used to close the connection.
    pub resource_id: u64,
    /// Identity bytes; empty while the client sits in the lobby.
    pub server_id: Vec<u8>,
    /// Symmetric key; empty until a packet has opened under it.
    pub server_key: Vec<u8>,
    /// When the last pong (or the accept) was seen, in milliseconds.
    pub last_checked_at: u64,
    /// False while a ping is outstanding.
    pub pong_received: bool,
    /// Cleared on transport disconnect; the next sweep evicts the entry.
    pub connected: bool,
}

/// Mathematical model of a [`Client`].
pub struct ClientView {
    pub endpoint: u64,
    pub resource_id: u64,
    pub server_id: Seq<u8>,
    pub server_key: Seq<u8>,
    pub last_checked_at: u64,
    pub pong_received: bool,
    pub connected: bool,
}

impl View for Client {
    type V = ClientView;

    open spec fn view(&self) -> ClientView {
        ClientView {
            endpoint: self.endpoint,
            resource_id: self.resource_id,
            server_id: self.server_id@,
            server_key: self.server_key@,
            last_checked_at: self.last_checked_at,
            pong_received: self.pong_received,
            connected: self.connected,
        }
    }
}

/// The ping that the liveness sweep sends to a client.
pub open spec fn ping_message(sid: Seq<u8>) -> MessageView {
    MessageView {
        id: Seq::empty(),
        message_type: Type::Ping,
        server_id: Some(sid),
        resource_id: None,
        data: Data::Empty,
        metadata: Metadata::Empty,
        errors: Seq::empty(),
    }
}

/// An encrypted-message frame: `{"t":"m","c":[..]}` holding a packet that
/// encodes `m` under `key`.
pub open spec fn is_message_frame(frame: Seq<u8>, m: MessageView, key: Seq<u8>) -> bool {
    exists|packet: Seq<u8>|
        frame == spec_frame(seq![109u8], packet) && #[trigger] is_encoding_of(packet, m, key)
}

impl Client {
    /// A fresh lobby client: no identity, no key, the liveness clock
    /// started at `now`.
    pub fn new(endpoint: u64, resource_id: u64, now: u64) -> (r: Client)
        ensures
            r@ == (ClientView {
                endpoint,
                resource_id,
                server_id: Seq::<u8>::empty(),
                server_key: Seq::<u8>::empty(),
                last_checked_at: now,
                pong_received: true,
                connected: true,
            }),
    {
        let r = Client {
            endpoint,
            resource_id,
            server_id: Vec::new(),
            server_key: Vec::new(),
            last_checked_at: now,
            pong_received: true,
            connected: true,
        };
        proof {
            assert(r@.server_id =~= Seq::<u8>::empty());
            assert(r@.server_key =~= Seq::<u8>::empty());
        }
        r
    }

    /// Still in the lobby: not yet identified.
    pub open spec fn in_lobby(self) -> bool {
        self.server_id@.len() == 0
    }

    /// Stores the identity learned from an `"id"` frame.
    pub fn set_server_id(&mut self, server_id: Vec<u8>)
        ensures
            final(self)@ == (ClientView { server_id: server_id@, ..old(self)@ }),
    {
        self.server_id = server_id;
    }

    /// Binds the key under which a packet from this endpoint opened.
    pub fn set_server_key(&mut self, server_key: Vec<u8>)
        ensures
            final(self)@ == (ClientView { server_key: server_key@, ..old(self)@ }),
    {
        self.server_key = server_key;
    }

    /// A pong arrived: restart the liveness clock.
    pub fn pong(&mut self, now: u64)
        ensures
            final(self)@ == (ClientView {
                last_checked_at: now,
                pong_received: true,
                ..old(self)@
            }),
    {
        self.last_checked_at = now;
        self.pong_received = true;
    }

    /// The transport reported a disconnect; the next sweep evicts us.
    pub fn mark_disconnected(&mut self)
        ensures
            final(self)@ == (ClientView { connected: false, ..old(self)@ }),
    {
        self.connected = false;
    }

    /// The `{"t":"id","c":[]}` frame soliciting the client's identity.
    pub fn request_identity(&self) -> (r: Vec<u8>)
        ensures
            r@ == spec_frame(seq![105u8, 100u8], Seq::<u8>::empty()),
    {
        Client::request_identity_frame()
    }

    /// The `{"t":"id","c":[]}` frame soliciting a client's identity.
    pub fn request_identity_frame() -> (r: Vec<u8>)
        ensures
            r@ == spec_frame(seq![105u8, 100u8], Seq::<u8>::empty()),
    {
        let t: Vec<u8> = vec![105u8, 100u8];
        let c: Vec<u8> = Vec::new();
        let r = emit_frame(t.as_slice(), c.as_slice());
        proof {
            assert(t@ =~= seq![105u8, 100u8]);
            assert(c@ =~= Seq::<u8>::empty());
        }
        r
    }

    /// The `{"t":"i","c":[]}` frame soliciting the application init.
    pub fn request_init(&self) -> (r: Vec<u8>)
        ensures
            r@ == spec_frame(seq![105u8], Seq::<u8>::empty()),
    {
        Client::request_init_frame()
    }

    /// The `{"t":"i","c":[]}` frame soliciting an application init.
    pub fn request_init_frame() -> (r: Vec<u8>)
        ensures
            r@ == spec_frame(seq![105u8], Seq::<u8>::empty()),
    {
        let t: Vec<u8> = vec![105u8];
        let c: Vec<u8> = Vec::new();
        let r = emit_frame(t.as_slice(), c.as_slice());
        proof {
            assert(t@ =~= seq![105u8]);
            assert(c@ =~= Seq::<u8>::empty());
        }
        r
    }

    /// Encrypts `message` under this client's own key and frames it as an
    /// `"m"` frame, ready for the transport.
    pub fn send_message(&self, message: &Message) -> (r: Result<Vec<u8>, CodecError>)
        ensures
            r is Ok <==> crate::codec::encodable(message@, self.server_key@),
            r matches Ok(frame) ==> is_message_frame(frame@, wire_of(message@), self.server_key@),
    {
        let packet = match encode(message, self.server_key.as_slice()) {
            Ok(p) => p,
            Err(e) => {
                return Err(e);
            }
        };
        let t: Vec<u8> = vec![109u8];
        let frame = emit_frame(t.as_slice(), packet.as_slice());
        proof {
            assert(t@ =~= seq![109u8]);
        }
        Ok(frame)
    }

    /// Runs the codec on the content of an `"m"` frame under `key`. A
    /// packet that opens binds the key to this client; if it held a pong,
    /// the liveness clock restarts and nothing is forwarded, otherwise
    /// the message comes back for routing. On any codec error the client
    /// is untouched and the caller disconnects the endpoint.
    pub fn parse_message(&mut self, content: &[u8], key: &[u8], now: u64) -> (r: Result<
        Option<Message>,
        CodecError,
    >)
        ensures
            r is Err ==> final(self)@ == old(self)@,
            r matches Ok(out) ==> (match out {
                Some(msg) => msg@.message_type != Type::Pong && msg@.resource_id is None
                    && final(self)@ == (ClientView { server_key: key@, ..old(self)@ }),
                None => final(self)@ == (ClientView {
                    server_key: key@,
                    last_checked_at: now,
                    pong_received: true,
                    ..old(self)@
                }),
            }),
            forall|m: MessageView|
                crate::serial::wire_wf(m) && m.resource_id is None
                    && crate::serial::spec_ser_message(m).len() < crate::aead::gcm_plain_limit()
                    && key@.len() >= 32 && #[trigger] crate::codec::is_encoding_of(
                    content@,
                    m,
                    key@,
                ) ==> (if m.message_type == Type::Pong {
                    r matches Ok(out) && out is None
                } else {
                    r matches Ok(out) && out matches Some(msg) && msg@ == m
                }),
    {
        let msg = match crate::codec::decode(content, key) {
            Ok(msg) => msg,
            Err(e) => {
                return Err(e);
            }
        };
        self.set_server_key(slice_to_vec_u8(key));
        match msg.message_type {
            Type::Pong => {
                self.pong(now);
                Ok(None)
            }
            _ => Ok(Some(msg)),
        }
    }

    /// Marks a ping as outstanding and builds the encrypted ping frame.
    pub fn ping(&mut self) -> (r: Result<Vec<u8>, CodecError>)
        ensures
            final(self)@ == (ClientView { pong_received: false, ..old(self)@ }),
            r is Ok <==> crate::codec::encodable(
                ping_message(old(self)@.server_id),
                old(self)@.server_key,
            ),
            r matches Ok(frame) ==> is_message_frame(
                frame@,
                ping_message(old(self)@.server_id),
                old(self)@.server_key,
            ),
    {
        self.pong_received = false;
        let mut m = Message::new(Type::Ping);
        m.server_id = Some(slice_to_vec_u8(self.server_id.as_slice()));
        proof {
            assert(m@ == ping_message(self@.server_id));
            assert(wire_of(m@) == m@);
        }
        self.send_message(&m)
    }
}

/// Copies a byte slice into a fresh vector.
fn slice_to_vec_u8(s: &[u8]) -> (r: Vec<u8>)
    ensures
        r@ == s@,
{
    vstd::slice::slice_to_vec(s)
}

} // verus!
