//! The closed sets of requests that flow between the bot channel, the
//! router and the transport, and the dispatch of inbound bot traffic.

use vstd::prelude::*;
use crate::message::Message;

verus! {

/// Everything the router consumes; network events and bot commands alike
/// become one of these before they reach it.
pub enum ServerRequest {
    /// Close one identified client, or every client.
    Disconnect(Option<Vec<u8>>),
    /// The server is ready to accept clients again.
    Resume,
    /// Stop accepting clients and flush every one.
    Pause,
    /// Deliver a message to an identified client.
    Send { server_id: Vec<u8>, message: Message },
    /// Run the liveness sweep.
    AliveCheck,
    /// Close one endpoint's transport resource.
    DisconnectEndpoint(u64),
    /// The listener accepted a connection.
    OnConnect { endpoint: u64, resource_id: u64 },
    /// The listener received a frame.
    OnMessage { endpoint: u64, bytes: Vec<u8> },
    /// The transport reported a disconnect.
    OnDisconnect(u64),
}

/// Traffic on the bot channel, in both directions.
pub enum BotRequest {
    /// Bot-issued router command.
    ServerRequest(ServerRequest),
    /// Heartbeat ping to the bot.
    Ping,
    /// Heartbeat answer from the bot.
    Pong,
    /// Bot asks for a delivery to a client.
    SendToClient { server_id: Vec<u8>, message: Message },
    /// A message going up to the bot.
    Send { server_id: Option<Vec<u8>>, message: Message },
    /// A client went away.
    Disconnected(Option<Vec<u8>>),
}

/// Where one inbound bot request goes.
pub enum Dispatch {
    /// Hand it to the router.
    ToServer(ServerRequest),
    /// Flip the heartbeat latch.
    PongLatch,
    /// Not something the bot may send; log and drop.
    Unsupported,
}

/// Routes one request read off the bot channel: bot commands and
/// deliveries go to the router, a pong feeds the heartbeat, anything else
/// is dropped.
pub fn dispatch_bot_request(req: BotRequest) -> (r: Dispatch)
    ensures
        match req {
            BotRequest::ServerRequest(inner) => r == Dispatch::ToServer(inner),
            BotRequest::Pong => r == Dispatch::PongLatch,
            BotRequest::SendToClient { server_id, message } => r == Dispatch::ToServer(
                ServerRequest::Send { server_id, message },
            ),
            _ => r == Dispatch::Unsupported,
        },
{
    match req {
        BotRequest::ServerRequest(inner) => Dispatch::ToServer(inner),
        BotRequest::Pong => Dispatch::PongLatch,
        BotRequest::SendToClient { server_id, message } => Dispatch::ToServer(
            ServerRequest::Send { server_id, message },
        ),
        BotRequest::Ping => Dispatch::Unsupported,
        BotRequest::Send { .. } => Dispatch::Unsupported,
        BotRequest::Disconnected(..) => Dispatch::Unsupported,
    }
}

} // verus!
