use vstd::prelude::*;

verus! {

/// A responder advertises a handler for `path`.
#[derive(Clone, Debug, PartialEq, Eq)]
pub struct RequestRegister {
    pub path: String,
}

/// An ask: client to broker, then broker to the chosen responder.
#[derive(Clone, Debug, PartialEq, Eq)]
pub struct RequestAsk {
    pub id: u32,
    pub path: String,
    pub data: Vec<u8>,
}

/// A response: responder to broker, then broker to the asking client.
#[derive(Clone, Debug, PartialEq, Eq)]
pub struct RequestResponse {
    pub id: u32,
    pub data: Vec<u8>,
}

/// How a peer identifies itself after the version handshake.
#[derive(Clone, Copy, Debug, PartialEq, Eq, Structural)]
pub enum Connect {
    New,
    Existing(u32),
}

/// The broker's answer to a `Connect`: the identity it bound.
#[derive(Clone, Copy, Debug, PartialEq, Eq, Structural)]
pub struct ConnectAck(pub u32);

#[derive(Clone, Debug, PartialEq, Eq)]
pub enum Control {
    Ping,
    Pong,
    AuthPass(String),
    Disconnect,
    Connect(Connect),
    ConnectAck(ConnectAck),
}

#[derive(Clone, Debug, PartialEq, Eq)]
pub enum Payload {
    Control(Control),
    RequestRegister(RequestRegister),
    RequestAsk(RequestAsk),
    RequestResponse(RequestResponse),
}

/// The unit that travels in one frame.
#[derive(Clone, Debug, PartialEq, Eq)]
pub struct Message {
    pub payload: Payload,
}

impl Message {
    pub fn new(payload: Payload) -> (r: Self)
        ensures
            r.payload == payload,
    {
        Self { payload }
    }
}

impl Connect {
    /// Wraps the identity request in a control message.
    pub fn into_message(self) -> (r: Message)
        ensures
            r.payload == Payload::Control(Control::Connect(self)),
    {
        Message { payload: Payload::Control(Control::Connect(self)) }
    }
}

} // verus!
