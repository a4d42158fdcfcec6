use vstd::prelude::*;
use std::collections::HashMap;
use crate::fresh::{fresh_key, first_free, ID_SPACE};
use crate::frame::SessionError;
use crate::id::ConnectionID;
use crate::message::{Connect, ConnectAck, Control, Message, Payload};

verus! {

broadcast use vstd::std_specs::hash::group_hash_axioms;

/// How often, and how long apart, a send to an absent connection is retried
/// before it is given up.
pub const RETRY_LIMIT: u32 = 100;
pub const RETRY_INTERVAL_MS: u64 = 100;

/// The broker's live connections: each identity with the outbound queue of
/// the session that currently carries it.
pub struct Connections<S> {
    sinks: HashMap<u32, S>,
    counter: u32,
}

impl<S> Connections<S> {
    /// Identity to outbound queue.
    pub closed spec fn view(&self) -> Map<u32, S> {
        self.sinks@
    }

    /// The next identity to try.
    pub closed spec fn counter(&self) -> u32 {
        self.counter
    }

    pub fn new() -> (r: Self)
        ensures
            r@ == Map::<u32, S>::empty(),
            r.counter() == 0,
    {
        Connections { sinks: HashMap::new(), counter: 0 }
    }

    /// The number of live identities.
    pub fn len(&self) -> (r: usize)
        ensures
            r == self@.len(),
    {
        self.sinks.len()
    }

    /// Binds the identity that `connect` asks for to `sink`: a new one is
    /// drawn from the counter past every identity in use; an existing one is
    /// rebound, so that all later sends to it reach `sink`.
    pub fn connect(&mut self, connect: Connect, sink: S) -> (r: Result<ConnectionID, SessionError>)
        requires
            old(self)@.len() < ID_SPACE,
        ensures
            match connect {
                Connect::New => match r {
                    Ok(id) => first_free(old(self)@.dom(), old(self).counter(), id.0, final(self).counter())
                        && final(self)@ == old(self)@.insert(id.0, sink),
                    Err(_) => false,
                },
                Connect::Existing(id) => if old(self)@.contains_key(id) {
                    &&& r == Ok::<ConnectionID, SessionError>(ConnectionID(id))
                    &&& final(self)@ == old(self)@.insert(id, sink)
                    &&& final(self).counter() == old(self).counter()
                } else {
                    &&& r == Err::<ConnectionID, SessionError>(SessionError::UnknownConnection(id))
                    &&& final(self)@ == old(self)@
                    &&& final(self).counter() == old(self).counter()
                },
            },
    {
        match connect {
            Connect::New => {
                let (id, next) = fresh_key(&self.sinks, self.counter);
                self.counter = next;
                self.sinks.insert(id, sink);
                Ok(ConnectionID(id))
            },
            Connect::Existing(id) => {
                if self.sinks.contains_key(&id) {
                    self.sinks.insert(id, sink);
                    Ok(ConnectionID(id))
                } else {
                    Err(SessionError::UnknownConnection(id))
                }
            },
        }
    }

    /// The outbound queue of `id`, if it is live.
    pub fn get(&self, id: ConnectionID) -> (r: Option<&S>)
        ensures
            match r {
                Some(s) => self@.contains_key(id.0) && *s == self@[id.0],
                None => !self@.contains_key(id.0),
            },
    {
        self.sinks.get(&id.0)
    }

    /// Forgets `id`; its queue is handed back.
    pub fn remove(&mut self, id: ConnectionID) -> (r: Option<S>)
        ensures
            final(self)@ == old(self)@.remove(id.0),
            final(self).counter() == old(self).counter(),
            match r {
                Some(s) => old(self)@.contains_key(id.0) && s == old(self)@[id.0],
                None => !old(self)@.contains_key(id.0),
            },
    {
        self.sinks.remove(&id.0)
    }
}

/// The broker's answer to a bound identity.
pub fn ack(id: ConnectionID) -> (r: Message)
    ensures
        r.payload == Payload::Control(Control::ConnectAck(ConnectAck(id.0))),
{
    Message { payload: Payload::Control(Control::ConnectAck(ConnectAck(id.0))) }
}

/// Whether a send to an absent connection is tried again after `attempts`
/// failed lookups.
pub fn keep_retrying(attempts: u32) -> (r: bool)
    ensures
        r == (attempts <= RETRY_LIMIT),
{
    attempts <= RETRY_LIMIT
}

} // verus!
