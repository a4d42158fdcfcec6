use vstd::prelude::*;
use std::collections::HashMap;
use crate::fresh::{fresh_key, first_free, ID_SPACE};
use crate::message::{Control, Message, Payload, RequestAsk, RequestResponse};

verus! {

broadcast use vstd::std_specs::hash::group_hash_axioms;

/// The pause before the first retry of a failed write, in milliseconds.
pub const INITIAL_BACKOFF_MS: u64 = 2;

/// The pause before the next retry: doubled, saturating, only when the
/// reconnect failed; a write that failed on a good connection retries as fast.
pub fn next_backoff(ms: u64, reconnect_failed: bool) -> (r: u64)
    ensures
        reconnect_failed ==> r == if ms <= u64::MAX / 2 { 2 * ms } else { u64::MAX as int },
        !reconnect_failed ==> r == ms,
{
    if reconnect_failed {
        if ms <= u64::MAX / 2 { 2 * ms } else { u64::MAX }
    } else {
        ms
    }
}

/// A client's asks in flight: each local id with the sink that waits for its
/// response. It survives reconnects untouched.
pub struct PendingTable<S> {
    pending: HashMap<u32, S>,
    counter: u32,
}

impl<S> PendingTable<S> {
    /// Local id to waiting sink.
    pub closed spec fn view(&self) -> Map<u32, S> {
        self.pending@
    }

    /// The next local id to try.
    pub closed spec fn counter(&self) -> u32 {
        self.counter
    }

    pub fn new() -> (r: Self)
        ensures
            r@ == Map::<u32, S>::empty(),
            r.counter() == 0,
    {
        PendingTable { pending: HashMap::new(), counter: 0 }
    }

    /// The number of asks in flight.
    pub fn len(&self) -> (r: usize)
        ensures
            r == self@.len(),
    {
        self.pending.len()
    }

    /// Installs `sink` under a fresh local id, drawn from the counter past
    /// every id in flight.
    pub fn insert(&mut self, sink: S) -> (r: u32)
        requires
            old(self)@.len() < ID_SPACE,
        ensures
            first_free(old(self)@.dom(), old(self).counter(), r, final(self).counter()),
            final(self)@ == old(self)@.insert(r, sink),
    {
        let (id, next) = fresh_key(&self.pending, self.counter);
        self.counter = next;
        self.pending.insert(id, sink);
        id
    }

    /// Hands an incoming message to its waiter: a response whose id is in
    /// flight leaves the table together with its sink; anything else is
    /// ignored.
    pub fn deliver(&mut self, msg: Message) -> (r: Option<(S, RequestResponse)>)
        ensures
            final(self).counter() == old(self).counter(),
            match msg.payload {
                Payload::RequestResponse(resp) => if old(self)@.contains_key(resp.id) {
                    &&& r == Some((old(self)@[resp.id], resp))
                    &&& final(self)@ == old(self)@.remove(resp.id)
                } else {
                    r.is_none() && final(self)@ == old(self)@
                },
                _ => r.is_none() && final(self)@ == old(self)@,
            },
    {
        match msg.payload {
            Payload::RequestResponse(response) => {
                match self.pending.remove(&response.id) {
                    Some(sink) => Some((sink, response)),
                    None => {
                        assert(self.pending@ =~= old(self).pending@);
                        None
                    },
                }
            },
            _ => None,
        }
    }
}

/// The ask that carries `data` to `path` under the local id `id`.
pub fn ask_message(id: u32, path: String, data: Vec<u8>) -> (r: Message)
    ensures
        r.payload == Payload::RequestAsk(RequestAsk { id, path, data }),
{
    Message { payload: Payload::RequestAsk(RequestAsk { id, path, data }) }
}

/// The message by which a peer leaves the broker.
pub fn disconnect_message() -> (r: Message)
    ensures
        r.payload == Payload::Control(Control::Disconnect),
{
    Message { payload: Payload::Control(Control::Disconnect) }
}

} // verus!
