//! The single-writer event loop's state and decisions. The router alone
//! owns the client set; every network event and every bot command becomes
//! a [`crate::request::ServerRequest`] and is handled here, one at a time.
//! Each handler returns what the transport or the bot channel should do,
//! as plain values; the caller performs the I/O and feeds the answers
//! back.

use vstd::prelude::*;
use vstd::slice::slice_to_vec;
use crate::client::{is_message_frame, Client, ClientView};
use crate::client_manager::{pairwise_ok, ClientManager};
use crate::codec::encodable;
use crate::frame::spec_frame;
use crate::message::{ErrorType, ErrorView, Message, MessageView, Type};
use crate::serial::wire_of;

verus! {

/// The router's state: the admission flags and the client set.
pub struct Router {
    /// The bot heartbeat is alive.
    pub bot_connected: bool,
    /// The server accepts clients; lowered by `Pause`, raised by `Resume`.
    pub server_ready: bool,
    /// Every admitted client; owned by the router alone.
    pub clients: ClientManager,
}

/// The error code a failed delivery carries back to the bot.
pub open spec fn client_not_connected_text() -> Seq<u8> {
    seq![
        99u8, 108u8, 105u8, 101u8, 110u8, 116u8, 95u8, 110u8, 111u8, 116u8, 95u8, 99u8, 111u8,
        110u8, 110u8, 101u8, 99u8, 116u8, 101u8, 100u8,
    ]
}

/// An undeliverable message, rewritten for the bot: type `Error`, with
/// `client_not_connected` appended as a code.
pub open spec fn undeliverable(m: MessageView) -> MessageView {
    MessageView {
        message_type: Type::Error,
        errors: m.errors.push(ErrorView {
            error_type: ErrorType::Code,
            error_message: client_not_connected_text(),
        }),
        ..m
    }
}

/// Rewrites a message that could not be delivered: the id and everything
/// else stay, so the bot can correlate the failure.
pub fn undeliverable_reply(message: Message) -> (r: Message)
    ensures
        r@ == undeliverable(message@),
{
    let mut m = message;
    m.message_type = Type::Error;
    let text: Vec<u8> = vec![
        99u8, 108u8, 105u8, 101u8, 110u8, 116u8, 95u8, 110u8, 111u8, 116u8, 95u8, 99u8, 111u8,
        110u8, 110u8, 101u8, 99u8, 116u8, 101u8, 100u8,
    ];
    proof {
        assert(text@ =~= client_not_connected_text());
    }
    m.add_error(ErrorType::Code, text);
    m
}

/// What a `Send` decided.
pub enum SendOutcome {
    /// Write this frame to this endpoint.
    Deliver { endpoint: u64, frame: Vec<u8> },
    /// No such client, or its key cannot seal the message: hand this
    /// rewrite back to the bot under the original server id.
    Undeliverable { reply: Message },
}

impl Router {
    /// A fresh router: admission off, no clients.
    pub fn new() -> (r: Router)
        ensures
            !r.bot_connected,
            !r.server_ready,
            r.clients@ == Seq::<ClientView>::empty(),
            pairwise_ok(r.clients@),
    {
        Router { bot_connected: false, server_ready: false, clients: ClientManager::new() }
    }

    /// Admission: both flags must be up before an endpoint is served.
    pub open spec fn spec_ready(self) -> bool {
        self.bot_connected && self.server_ready
    }

    /// Admission: both flags must be up before an endpoint is served.
    pub fn ready(&self) -> (r: bool)
        ensures
            r == self.spec_ready(),
    {
        self.bot_connected && self.server_ready
    }

    /// The heartbeat decided a new value for the bot flag.
    pub fn set_bot_connected(&mut self, value: bool)
        ensures
            final(self).bot_connected == value,
            final(self).server_ready == old(self).server_ready,
            final(self).clients@ == old(self).clients@,
    {
        self.bot_connected = value;
    }

    /// `Resume`: the bot turned admission back on.
    pub fn resume(&mut self)
        ensures
            final(self).server_ready,
            final(self).bot_connected == old(self).bot_connected,
            final(self).clients@ == old(self).clients@,
    {
        self.server_ready = true;
    }

    /// `Pause`: stop admitting clients and flush every one; the returned
    /// transport resources are to be closed.
    pub fn pause(&mut self) -> (r: Vec<u64>)
        ensures
            !final(self).server_ready,
            final(self).bot_connected == old(self).bot_connected,
            final(self).clients@ == Seq::<ClientView>::empty(),
            r@.len() == old(self).clients@.len(),
            forall|i: int| 0 <= i < r@.len() ==> r@[i] == old(self).clients@[i].resource_id,
    {
        self.server_ready = false;
        self.clients.disconnect_all()
    }

    /// `Disconnect`: close one identified client, or every client.
    pub fn disconnect(&mut self, server_id: Option<&Vec<u8>>) -> (r: Vec<u64>)
        requires
            pairwise_ok(old(self).clients@),
        ensures
            pairwise_ok(final(self).clients@),
            final(self).bot_connected == old(self).bot_connected,
            final(self).server_ready == old(self).server_ready,
            match server_id {
                None => final(self).clients@ == Seq::<ClientView>::empty() && r@.len() == old(
                    self,
                ).clients@.len() && forall|i: int|
                    0 <= i < r@.len() ==> r@[i] == old(self).clients@[i].resource_id,
                Some(sid) => ((forall|i: int|
                    0 <= i < old(self).clients@.len() ==> old(self).clients@[i].server_id != sid@)
                    && final(self).clients@ == old(self).clients@ && r@.len() == 0) || (exists|
                    i: int,
                |
                    0 <= i < old(self).clients@.len() && old(self).clients@[i].server_id == sid@
                        && final(self).clients@ == old(self).clients@.remove(i) && r@ == seq![
                    old(self).clients@[i].resource_id,
                ]),
            },
    {
        match server_id {
            None => self.clients.disconnect_all(),
            Some(sid) => {
                match self.clients.index_of_server_id(sid.as_slice()) {
                    None => Vec::new(),
                    Some(i) => {
                        let c = self.clients.take_at(i);
                        let mut r: Vec<u64> = Vec::new();
                        r.push(c.resource_id);
                        proof {
                            crate::client_manager::lemma_remove_pairwise(
                                old(self).clients@,
                                i as int,
                            );
                            assert(r@ =~= seq![old(self).clients@[i as int].resource_id]);
                        }
                        r
                    }
                }
            }
        }
    }

    /// `DisconnectEndpoint`: evict one endpoint; the returned resource is
    /// to be closed.
    pub fn disconnect_endpoint(&mut self, endpoint: u64) -> (r: Option<u64>)
        requires
            pairwise_ok(old(self).clients@),
        ensures
            pairwise_ok(final(self).clients@),
            final(self).bot_connected == old(self).bot_connected,
            final(self).server_ready == old(self).server_ready,
            match r {
                Some(rid) => exists|i: int|
                    0 <= i < old(self).clients@.len() && old(self).clients@[i].endpoint == endpoint
                        && rid == old(self).clients@[i].resource_id && final(self).clients@ == old(
                        self,
                    ).clients@.remove(i),
                None => final(self).clients@ == old(self).clients@ && forall|i: int|
                    0 <= i < old(self).clients@.len() ==> old(self).clients@[i].endpoint
                        != endpoint,
            },
    {
        match self.clients.remove(endpoint) {
            Some(c) => Some(c.resource_id),
            None => None,
        }
    }

    /// `Send`: deliver a message to the client identified as `server_id`,
    /// sealed under that client's own key; when there is no such client,
    /// or its key cannot seal the message, the message comes back for the
    /// bot rewritten as an error that keeps the original id.
    pub fn send_to_client(&self, server_id: &Vec<u8>, message: Message) -> (r: SendOutcome)
        ensures
            match r {
                SendOutcome::Deliver { endpoint, frame } => exists|i: int|
                    0 <= i < self.clients@.len() && (#[trigger] self.clients@[i]).server_id
                        == server_id@ && endpoint == self.clients@[i].endpoint && encodable(
                        message@,
                        self.clients@[i].server_key,
                    ) && is_message_frame(frame@, wire_of(message@), self.clients@[i].server_key),
                SendOutcome::Undeliverable { reply } => reply@ == undeliverable(message@) && ((
                forall|i: int|
                    0 <= i < self.clients@.len() ==> (#[trigger] self.clients@[i]).server_id
                        != server_id@) || (exists|i: int|
                    0 <= i < self.clients@.len() && (#[trigger] self.clients@[i]).server_id
                        == server_id@ && !encodable(message@, self.clients@[i].server_key))),
            },
    {
        match self.clients.index_of_server_id(server_id.as_slice()) {
            None => SendOutcome::Undeliverable { reply: undeliverable_reply(message) },
            Some(i) => {
                let c = self.clients.at(i);
                match c.send_message(&message) {
                    Ok(frame) => SendOutcome::Deliver { endpoint: c.endpoint, frame },
                    Err(_) => SendOutcome::Undeliverable { reply: undeliverable_reply(message) },
                }
            }
        }
    }

    /// `OnConnect`: admit the endpoint to the lobby and ask who it is; a
    /// stale entry on the same endpoint gives way first. While admission
    /// is off the endpoint is closed before any byte is processed.
    pub fn on_connect(&mut self, endpoint: u64, resource_id: u64, now: u64) -> (r: ConnectOutcome)
        requires
            pairwise_ok(old(self).clients@),
        ensures
            pairwise_ok(final(self).clients@),
            final(self).bot_connected == old(self).bot_connected,
            final(self).server_ready == old(self).server_ready,
            !old(self).spec_ready() ==> (r matches ConnectOutcome::Rejected { close } && close
                == resource_id),
            old(self).spec_ready() ==> (r matches ConnectOutcome::Greeted { frame } && frame@
                == spec_frame(seq![105u8, 100u8], Seq::<u8>::empty())),
            ({
                let pre = old(self).clients@;
                let post = final(self).clients@;
                let stripped = if exists|i: int| 0 <= i < pre.len() && pre[i].endpoint == endpoint {
                    pre.remove(choose|i: int| 0 <= i < pre.len() && pre[i].endpoint == endpoint)
                } else {
                    pre
                };
                post == if old(self).spec_ready() {
                    stripped.push(lobby_client(endpoint, resource_id, now))
                } else {
                    stripped
                }
            }),
    {
        let stale = self.clients.remove(endpoint);
        proof {
            let pre = old(self).clients@;
            let cur = self.clients@;
            if exists|i: int| 0 <= i < pre.len() && pre[i].endpoint == endpoint {
                let ic = choose|i: int| 0 <= i < pre.len() && pre[i].endpoint == endpoint;
                assert(stale is Some);
                let i0 = choose|i: int|
                    0 <= i < pre.len() && pre[i] == stale.unwrap()@ && cur == pre.remove(i);
                assert(pre[i0].endpoint == endpoint);
                assert(i0 == ic);
            }
            lemma_fresh_after_remove(pre, cur, endpoint);
        }
        if !self.ready() {
            return ConnectOutcome::Rejected { close: resource_id };
        }
        self.clients.add(endpoint, resource_id, now);
        ConnectOutcome::Greeted { frame: Client::request_identity_frame() }
    }

    /// `OnDisconnect`: the transport lost the endpoint; the entry stays
    /// until the next sweep, and the bot hears which client went away.
    pub fn on_disconnect(&mut self, endpoint: u64) -> (r: DisconnectNote)
        requires
            pairwise_ok(old(self).clients@),
        ensures
            pairwise_ok(final(self).clients@),
            final(self).bot_connected == old(self).bot_connected,
            final(self).server_ready == old(self).server_ready,
            match r {
                DisconnectNote::Ignored => final(self).clients@ == old(self).clients@ && forall|
                    i: int,
                |
                    0 <= i < old(self).clients@.len() ==> old(self).clients@[i].endpoint
                        != endpoint,
                DisconnectNote::Notified { server_id } => exists|i: int|
                    0 <= i < old(self).clients@.len() && (#[trigger] old(
                        self,
                    ).clients@[i]).endpoint == endpoint && final(self).clients@ == old(
                        self,
                    ).clients@.update(
                        i,
                        ClientView { connected: false, ..old(self).clients@[i] },
                    ) && (match server_id {
                        Some(sid) => old(self).clients@[i].server_id == sid@ && sid@.len() > 0,
                        None => old(self).clients@[i].server_id.len() == 0,
                    }),
            },
    {
        let found = self.clients.index_of_endpoint(endpoint);
        match found {
            None => DisconnectNote::Ignored,
            Some(i) => {
                let mut c = self.clients.take_at(i);
                let ghost pre = old(self).clients@;
                c.mark_disconnected();
                let server_id = if c.server_id.len() > 0 {
                    Some(slice_to_vec(c.server_id.as_slice()))
                } else {
                    None
                };
                self.clients.insert_at(i, c);
                proof {
                    assert(final(self).clients@ =~= pre.update(
                        i as int,
                        ClientView { connected: false, ..pre[i as int] },
                    ));
                    lemma_update_same_identity(
                        pre,
                        i as int,
                        ClientView { connected: false, ..pre[i as int] },
                    );
                }
                DisconnectNote::Notified { server_id }
            }
        }
    }

    /// `OnMessage`, first step: admission, the outer plaintext frame, and
    /// the identity handshake. An encrypted frame comes back as
    /// [`MessageStep::NeedKey`]; the caller looks the key up and finishes
    /// with [`Self::on_message_with_key`].
    pub fn on_message(&mut self, endpoint: u64, bytes: &[u8]) -> (r: MessageStep)
        requires
            pairwise_ok(old(self).clients@),
        ensures
            pairwise_ok(final(self).clients@),
            final(self).bot_connected == old(self).bot_connected,
            final(self).server_ready == old(self).server_ready,
            ({
                let pre = old(self).clients@;
                let post = final(self).clients@;
                if forall|i: int| 0 <= i < pre.len() ==> pre[i].endpoint != endpoint {
                    r matches MessageStep::Ignored && post == pre
                } else {
                    exists|i: int|
                        0 <= i < pre.len() && (#[trigger] pre[i]).endpoint == endpoint && ({
                            if !old(self).spec_ready() {
                                r matches MessageStep::Closed { close } && close
                                    == pre[i].resource_id && post == pre.remove(i)
                            } else {
                                match crate::frame::spec_parse_frame(bytes@) {
                                    None => r matches MessageStep::Closed { close } && close
                                        == pre[i].resource_id && post == pre.remove(i),
                                    Some((t, c)) => {
                                        if t == seq![105u8, 100u8] {
                                            if !(1 <= c.len() <= 255) {
                                                r matches MessageStep::BadIdentity && post == pre
                                            } else if exists|j: int|
                                                0 <= j < pre.len() && (#[trigger] pre[j]).server_id
                                                    == c && pre[j].endpoint != endpoint {
                                                r matches MessageStep::Closed { close } && close
                                                    == pre[i].resource_id && post == pre.remove(i)
                                            } else {
                                                r matches MessageStep::InitRequested { frame }
                                                    && frame@ == spec_frame(
                                                    seq![105u8],
                                                    Seq::<u8>::empty(),
                                                ) && post == pre.update(
                                                    i,
                                                    ClientView { server_id: c, ..pre[i] },
                                                )
                                            }
                                        } else {
                                            r matches MessageStep::NeedKey {
                                                server_id,
                                                content,
                                                ..
                                            } && server_id@ == pre[i].server_id && content@ == c
                                                && post == pre
                                        }
                                    },
                                }
                            }
                        })
                }
            }),
    {
        let found = self.clients.index_of_endpoint(endpoint);
        let i = match found {
            None => {
                return MessageStep::Ignored;
            }
            Some(i) => i,
        };
        let ghost pre = old(self).clients@;
        if !self.ready() {
            let c = self.clients.take_at(i);
            proof {
                crate::client_manager::lemma_remove_pairwise(pre, i as int);
            }
            return MessageStep::Closed { close: c.resource_id };
        }
        let parsed = match crate::frame::parse_frame(bytes) {
            None => {
                let c = self.clients.take_at(i);
                proof {
                    crate::client_manager::lemma_remove_pairwise(pre, i as int);
                }
                return MessageStep::Closed { close: c.resource_id };
            }
            Some(req) => req,
        };
        let is_id = crate::client_manager::bytes_eq(
            parsed.request_type.as_slice(),
            id_kind().as_slice(),
        );
        if is_id {
            let content = parsed.content;
            if content.len() == 0 || content.len() > 255 {
                return MessageStep::BadIdentity;
            }
            let idx = self.clients.index_of_server_id(content.as_slice());
            let taken = match idx {
                Some(j) => self.clients.at(j).endpoint != endpoint,
                None => false,
            };
            proof {
                if !taken {
                    if idx is Some {
                        let j0 = idx.unwrap() as int;
                        assert(pre[j0].server_id == content@ && pre[j0].endpoint == endpoint);
                        assert forall|jj: int|
                            0 <= jj < pre.len() && (#[trigger] pre[jj]).server_id == content@
                                implies pre[jj].endpoint == endpoint by {
                            if jj != j0 {
                                assert(content@.len() >= 1);
                                assert(pre[jj].server_id.len() >= 1);
                                assert(pre[jj].endpoint != pre[j0].endpoint);
                                assert(pre[jj].server_id != pre[j0].server_id);
                            }
                        }
                    }
                } else {
                    let j0 = idx.unwrap() as int;
                    assert(0 <= j0 < pre.len());
                    assert(pre[j0].server_id == content@);
                    assert(pre[j0].endpoint != endpoint);
                }
            }
            if taken {
                let c = self.clients.take_at(i);
                proof {
                    crate::client_manager::lemma_remove_pairwise(pre, i as int);
                }
                return MessageStep::Closed { close: c.resource_id };
            }
            let mut c = self.clients.take_at(i);
            c.set_server_id(content);
            let ghost cv = c@;
            self.clients.insert_at(i, c);
            proof {
                let post = final(self).clients@;
                assert(post =~= pre.update(i as int, cv));
                assert forall|a: int, b: int|
                    0 <= a < post.len() && 0 <= b < post.len() && a != b implies (
                #[trigger] post[a].endpoint != #[trigger] post[b].endpoint && (
                post[a].server_id.len() == 0 || post[a].server_id != post[b].server_id)) by {
                    assert(pre[a].endpoint != pre[b].endpoint);
                    assert(pre[a].server_id.len() == 0 || pre[a].server_id != pre[b].server_id);
                    if a == i {
                        if post[b].server_id == cv.server_id {
                            assert(pre[b].endpoint == endpoint);
                            assert(pre[b].endpoint != pre[i as int].endpoint);
                        }
                    } else if b == i {
                        if post[a].server_id == cv.server_id {
                            assert(pre[a].endpoint == endpoint);
                            assert(pre[a].endpoint != pre[i as int].endpoint);
                        }
                    }
                }
            }
            return MessageStep::InitRequested { frame: Client::request_init_frame() };
        }
        let sid = {
            let c = self.clients.at(i);
            slice_to_vec(c.server_id.as_slice())
        };
        MessageStep::NeedKey { endpoint, server_id: sid, content: parsed.content }
    }
}

/// Types reserved for the system; an inbound encrypted frame bearing one
/// is answered with an error instead of being forwarded.
pub open spec fn reserved_type(t: Type) -> bool {
    ||| t == Type::Connect
    ||| t == Type::Disconnect
    ||| t == Type::Ping
    ||| t == Type::Test
    ||| t == Type::Resume
    ||| t == Type::Pause
}

/// `Error - Invalid message type provided`
pub open spec fn invalid_type_text() -> Seq<u8> {
    seq![
        69u8, 114u8, 114u8, 111u8, 114u8, 32u8, 45u8, 32u8, 73u8, 110u8, 118u8, 97u8, 108u8,
        105u8, 100u8, 32u8, 109u8, 101u8, 115u8, 115u8, 97u8, 103u8, 101u8, 32u8, 116u8, 121u8,
        112u8, 101u8, 32u8, 112u8, 114u8, 111u8, 118u8, 105u8, 100u8, 101u8, 100u8,
    ]
}

/// The answer to a reserved-typed inbound message: the message itself with
/// the complaint appended.
pub open spec fn invalid_type_reply(m: MessageView) -> MessageView {
    MessageView {
        errors: m.errors.push(ErrorView {
            error_type: ErrorType::Message,
            error_message: invalid_type_text(),
        }),
        ..m
    }
}

/// The client after a packet from it opened under `k`.
pub open spec fn with_key(c: ClientView, k: Seq<u8>) -> ClientView {
    ClientView { server_key: k, ..c }
}

/// The client after a pong that opened under `k`.
pub open spec fn ponged_with_key(c: ClientView, k: Seq<u8>, now: u64) -> ClientView {
    ClientView { server_key: k, last_checked_at: now, pong_received: true, ..c }
}

/// What the second step of `OnMessage` decided.
pub enum KeyedStep {
    /// No such client; nothing to do.
    Ignored,
    /// No key for this identity, or the packet failed to open: close this
    /// resource, the entry is gone.
    Closed { close: u64 },
    /// The packet was a pong; the client's liveness clock restarted.
    PongNoted,
    /// The packet bore a reserved type; write the error frame back if it
    /// could be sealed.
    RejectedType { frame: Option<Vec<u8>> },
    /// Forward to the bot under the client's identity, tagged with where
    /// it came in.
    Forwarded { server_id: Vec<u8>, message: Message },
}

impl Router {
    /// `OnMessage`, second step, with the key the caller looked up for
    /// the client's identity. No key, or a packet that does not open
    /// under it, costs the endpoint its connection; a packet that opens
    /// binds the key to the client and is handled by its type: a pong
    /// feeds liveness, a reserved type is answered with an error, and
    /// everything else is tagged and forwarded to the bot.
    pub fn on_message_with_key(
        &mut self,
        endpoint: u64,
        content: &[u8],
        key: Option<Vec<u8>>,
        now: u64,
    ) -> (r: KeyedStep)
        requires
            pairwise_ok(old(self).clients@),
        ensures
            pairwise_ok(final(self).clients@),
            final(self).bot_connected == old(self).bot_connected,
            final(self).server_ready == old(self).server_ready,
            ({
                let pre = old(self).clients@;
                let post = final(self).clients@;
                if forall|i: int| 0 <= i < pre.len() ==> pre[i].endpoint != endpoint {
                    r matches KeyedStep::Ignored && post == pre
                } else {
                    exists|i: int|
                        0 <= i < pre.len() && (#[trigger] pre[i]).endpoint == endpoint && (match key {
                            None => r matches KeyedStep::Closed { close } && close
                                == pre[i].resource_id && post == pre.remove(i),
                            Some(k) => {
                                &&& (r matches KeyedStep::Closed { close } ==> close
                                    == pre[i].resource_id && post == pre.remove(i))
                                &&& (r matches KeyedStep::PongNoted ==> post == pre.update(
                                    i,
                                    ponged_with_key(pre[i], k@, now),
                                ))
                                &&& (r matches KeyedStep::RejectedType { frame } ==> post
                                    == pre.update(i, with_key(pre[i], k@)))
                                &&& (r matches KeyedStep::Forwarded { server_id, message }
                                    ==> server_id@ == pre[i].server_id && message@.resource_id
                                    == Some(pre[i].resource_id) && post == pre.update(
                                    i,
                                    with_key(pre[i], k@),
                                ))
                                &&& (forall|m: MessageView|
                                    crate::serial::wire_wf(m) && m.resource_id is None
                                        && crate::serial::spec_ser_message(m).len()
                                        < crate::aead::gcm_plain_limit() && k@.len() >= 32
                                        && #[trigger] crate::codec::is_encoding_of(
                                        content@,
                                        m,
                                        k@,
                                    ) ==> (if m.message_type == Type::Pong {
                                        r is PongNoted
                                    } else if reserved_type(m.message_type) {
                                        r matches KeyedStep::RejectedType { frame } && (match frame {
                                            Some(f) => encodable(invalid_type_reply(m), k@)
                                                && is_message_frame(
                                                f@,
                                                wire_of(invalid_type_reply(m)),
                                                k@,
                                            ),
                                            None => !encodable(invalid_type_reply(m), k@),
                                        })
                                    } else {
                                        r matches KeyedStep::Forwarded { server_id, message }
                                            && message@ == (MessageView {
                                            resource_id: Some(pre[i].resource_id),
                                            ..m
                                        })
                                    }))
                            },
                        })
                }
            }),
    {
        let found = self.clients.index_of_endpoint(endpoint);
        let i = match found {
            None => {
                return KeyedStep::Ignored;
            }
            Some(i) => i,
        };
        let ghost pre = old(self).clients@;
        let k = match key {
            None => {
                let c = self.clients.take_at(i);
                proof {
                    crate::client_manager::lemma_remove_pairwise(pre, i as int);
                }
                return KeyedStep::Closed { close: c.resource_id };
            }
            Some(k) => k,
        };
        let mut c = self.clients.take_at(i);
        match c.parse_message(content, k.as_slice(), now) {
            Err(_) => {
                proof {
                    crate::client_manager::lemma_remove_pairwise(pre, i as int);
                    assert forall|m: MessageView|
                        crate::serial::wire_wf(m) && m.resource_id is None
                            && crate::serial::spec_ser_message(m).len()
                            < crate::aead::gcm_plain_limit() && k@.len() >= 32
                            && #[trigger] crate::codec::is_encoding_of(content@, m, k@) implies
                        false by {
                    }
                }
                KeyedStep::Closed { close: c.resource_id }
            }
            Ok(None) => {
                let ghost cv = c@;
                self.clients.insert_at(i, c);
                proof {
                    assert(final(self).clients@ =~= pre.update(i as int, cv));
                    lemma_update_same_identity(pre, i as int, cv);
                }
                KeyedStep::PongNoted
            }
            Ok(Some(msg)) => {
                let ghost mv = msg@;
                proof {
                    assert forall|m: MessageView|
                        crate::serial::wire_wf(m) && m.resource_id is None
                            && crate::serial::spec_ser_message(m).len()
                            < crate::aead::gcm_plain_limit() && k@.len() >= 32
                            && #[trigger] crate::codec::is_encoding_of(content@, m, k@) implies m
                        == mv by {
                    }
                }
                match msg.message_type {
                    Type::Connect | Type::Disconnect | Type::Ping | Type::Test | Type::Resume
                        | Type::Pause => {
                        let mut reply = msg;
                        let text: Vec<u8> = invalid_type_text_bytes();
                        reply.add_error(ErrorType::Message, text);
                        proof {
                            assert(reply@ == invalid_type_reply(mv));
                        }
                        let frame = match c.send_message(&reply) {
                            Ok(f) => Some(f),
                            Err(_) => None,
                        };
                        let ghost cv = c@;
                        self.clients.insert_at(i, c);
                        proof {
                            assert(final(self).clients@ =~= pre.update(i as int, cv));
                            lemma_update_same_identity(pre, i as int, cv);
                        }
                        KeyedStep::RejectedType { frame }
                    }
                    _ => {
                        let mut msg = msg;
                        msg.set_resource(c.resource_id);
                        let sid = slice_to_vec(c.server_id.as_slice());
                        let ghost cv = c@;
                        self.clients.insert_at(i, c);
                        proof {
                            assert(final(self).clients@ =~= pre.update(i as int, cv));
                            lemma_update_same_identity(pre, i as int, cv);
                            assert(msg@ == (MessageView {
                                resource_id: Some(pre[i as int].resource_id),
                                ..mv
                            }));
                        }
                        KeyedStep::Forwarded { server_id: sid, message: msg }
                    }
                }
            }
        }
    }
}

impl Router {
    /// `AliveCheck`: the periodic liveness sweep over every client.
    pub fn alive_check(&mut self, now: u64) -> (r: crate::client_manager::AliveOutcome)
        requires
            pairwise_ok(old(self).clients@),
        ensures
            pairwise_ok(final(self).clients@),
            final(self).bot_connected == old(self).bot_connected,
            final(self).server_ready == old(self).server_ready,
            final(self).clients@ == crate::client_manager::sweep(old(self).clients@, now),
            r.to_close@ == crate::client_manager::swept_ids(old(self).clients@, now),
            crate::client_manager::pings_match(
                crate::client_manager::ping_views(r.pings@),
                crate::client_manager::pinged(old(self).clients@, now),
            ),
    {
        self.clients.alive_check(now)
    }
}

/// The bytes of `Error - Invalid message type provided`.
fn invalid_type_text_bytes() -> (r: Vec<u8>)
    ensures
        r@ == invalid_type_text(),
{
    let r: Vec<u8> = vec![
        69u8, 114u8, 114u8, 111u8, 114u8, 32u8, 45u8, 32u8, 73u8, 110u8, 118u8, 97u8, 108u8,
        105u8, 100u8, 32u8, 109u8, 101u8, 115u8, 115u8, 97u8, 103u8, 101u8, 32u8, 116u8, 121u8,
        112u8, 101u8, 32u8, 112u8, 114u8, 111u8, 118u8, 105u8, 100u8, 101u8, 100u8,
    ];
    proof {
        assert(r@ =~= invalid_type_text());
    }
    r
}

/// A freshly accepted client, in the lobby.
pub open spec fn lobby_client(endpoint: u64, resource_id: u64, now: u64) -> ClientView {
    ClientView {
        endpoint,
        resource_id,
        server_id: Seq::empty(),
        server_key: Seq::empty(),
        last_checked_at: now,
        pong_received: true,
        connected: true,
    }
}

/// What `OnConnect` decided.
pub enum ConnectOutcome {
    /// Admission is off: close the endpoint without reading a byte.
    Rejected { close: u64 },
    /// Admitted to the lobby; write the identity solicitation.
    Greeted { frame: Vec<u8> },
}

/// What `OnDisconnect` decided.
pub enum DisconnectNote {
    /// No such client.
    Ignored,
    /// Tell the bot which client went away.
    Notified { server_id: Option<Vec<u8>> },
}

/// What the first step of `OnMessage` decided.
pub enum MessageStep {
    /// No such client; nothing to do.
    Ignored,
    /// Protocol violation or admission off: close this resource, the entry
    /// is gone.
    Closed { close: u64 },
    /// The identity bytes are unusable; keep the client, do nothing.
    BadIdentity,
    /// Identity stored; write the init solicitation.
    InitRequested { frame: Vec<u8> },
    /// An encrypted frame: look up the key for `server_id` and finish
    /// with `on_message_with_key`.
    NeedKey { endpoint: u64, server_id: Vec<u8>, content: Vec<u8> },
}

/// `{"t":"id"}`'s kind bytes.
fn id_kind() -> (r: Vec<u8>)
    ensures
        r@ == seq![105u8, 100u8],
{
    let r: Vec<u8> = vec![105u8, 100u8];
    proof {
        assert(r@ =~= seq![105u8, 100u8]);
    }
    r
}

/// After removing every entry on `endpoint`, none is left.
proof fn lemma_fresh_after_remove(pre: Seq<ClientView>, post: Seq<ClientView>, endpoint: u64)
    requires
        pairwise_ok(pre),
        post == pre || exists|i: int|
            0 <= i < pre.len() && pre[i].endpoint == endpoint && post == pre.remove(i),
        post == pre ==> forall|i: int| 0 <= i < pre.len() ==> pre[i].endpoint != endpoint,
    ensures
        forall|k: int| 0 <= k < post.len() ==> post[k].endpoint != endpoint,
{
    if post != pre {
        let i = choose|i: int|
            0 <= i < pre.len() && pre[i].endpoint == endpoint && post == pre.remove(i);
        assert forall|k: int| 0 <= k < post.len() implies post[k].endpoint != endpoint by {
            if k < i {
                assert(post[k] == pre[k]);
                assert(pre[k].endpoint != pre[i].endpoint);
            } else {
                assert(post[k] == pre[k + 1]);
                assert(pre[k + 1].endpoint != pre[i].endpoint);
            }
        }
    }
}

/// Updating an entry without touching its endpoint or server id keeps the
/// indices injective.
pub(crate) proof fn lemma_update_same_identity(s: Seq<ClientView>, i: int, c: ClientView)
    requires
        pairwise_ok(s),
        0 <= i < s.len(),
        c.endpoint == s[i].endpoint,
        c.server_id == s[i].server_id,
    ensures
        pairwise_ok(s.update(i, c)),
{
    let t = s.update(i, c);
    assert forall|a: int, b: int|
        0 <= a < t.len() && 0 <= b < t.len() && a != b implies (#[trigger] t[a].endpoint
        != #[trigger] t[b].endpoint && (t[a].server_id.len() == 0 || t[a].server_id
        != t[b].server_id)) by {
        assert(s[a].endpoint != s[b].endpoint);
        assert(s[a].server_id.len() == 0 || s[a].server_id != s[b].server_id);
    }
}

} // verus!
