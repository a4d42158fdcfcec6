use vstd::prelude::*;
use std::collections::HashMap;
use crate::fresh::{fresh_key, first_free, ID_SPACE};
use crate::id::ConnectionID;
use crate::message::{Control, Message, Payload, RequestAsk, RequestResponse};
use crate::table::{keeps, next_turn, PathTable};

verus! {

broadcast use vstd::std_specs::hash::group_hash_axioms;

/// What the dispatch loop does after the registry has handled a message.
#[derive(Debug, PartialEq, Eq)]
pub enum Action {
    /// Nothing more to send.
    Done,
    /// Enqueue the message on the outbound queue of the connection.
    Send(ConnectionID, Message),
}

/// A message that the registry refuses.
#[derive(Clone, Copy, Debug, PartialEq, Eq, Structural)]
pub enum BrokerError {
    /// A response whose id matches no pending ask.
    StaleResponse(u32),
}

/// The broker's routing state: who handles which path, who listens to which
/// event, and which forwarded asks still wait for their response.
pub struct Registry {
    events_subscribers: PathTable,
    request_handlers: PathTable,
    request_pending: HashMap<u32, (u32, ConnectionID)>,
    request_count: u32,
}

/// `b` is `a` with `id` removed from every handler and subscriber list, and
/// nothing else changed.
pub open spec fn purged(a: &Registry, b: &Registry, id: ConnectionID) -> bool {
    &&& b.events_view().dom() == a.events_view().dom()
    &&& b.handlers_view().dom() == a.handlers_view().dom()
    &&& forall|p: Seq<char>| #[trigger] b.events(p) == a.events(p).filter(keeps(id))
    &&& forall|p: Seq<char>| #[trigger] b.handlers(p) == a.handlers(p).filter(keeps(id))
    &&& forall|p: Seq<char>| #[trigger] b.turn(p) == a.turn(p)
    &&& b.pending() == a.pending()
    &&& b.counter() == a.counter()
}

/// `b` is `a` with `id` appended to the handler list of `p`, and nothing else
/// changed.
pub open spec fn registered(a: &Registry, b: &Registry, p: Seq<char>, id: ConnectionID) -> bool {
    &&& b.handlers_view() == a.handlers_view().insert(p, (a.handlers(p).push(id), a.turn(p)))
    &&& b.events_view() == a.events_view()
    &&& b.pending() == a.pending()
    &&& b.counter() == a.counter()
}

/// `b` is `a` with every occurrence of `id` removed from the handler list of `p`.
pub open spec fn unregistered(a: &Registry, b: &Registry, p: Seq<char>, id: ConnectionID) -> bool {
    &&& b.handlers(p) == a.handlers(p).filter(keeps(id))
    &&& forall|q: Seq<char>| q != p ==> #[trigger] b.handlers(q) == a.handlers(q)
    &&& b.events_view() == a.events_view()
    &&& b.pending() == a.pending()
    &&& b.counter() == a.counter()
}

/// Two registries that hold the same state.
pub open spec fn same_state(a: &Registry, b: &Registry) -> bool {
    &&& a.events_view() == b.events_view()
    &&& a.handlers_view() == b.handlers_view()
    &&& a.pending() == b.pending()
    &&& a.counter() == b.counter()
}

/// How `handle_message` moves the registry from `a` to `b` on a message from
/// `origin`, and what it answers.
pub open spec fn routed(
    a: &Registry,
    b: &Registry,
    origin: ConnectionID,
    msg: Message,
    r: Result<Action, BrokerError>,
) -> bool {
    match msg.payload {
        Payload::Control(Control::Disconnect) => purged(a, b, origin) && r == Ok::<
            Action,
            BrokerError,
        >(Action::Done),
        Payload::Control(_) => same_state(a, b) && r == Ok::<Action, BrokerError>(Action::Done),
        Payload::RequestRegister(reg) => registered(a, b, reg.path@, origin) && r == Ok::<
            Action,
            BrokerError,
        >(Action::Done),
        Payload::RequestAsk(ask) => {
            let l = a.handlers(ask.path@);
            let t = a.turn(ask.path@);
            if l.len() == 0 {
                same_state(a, b) && r == Ok::<Action, BrokerError>(Action::Done)
            } else {
                exists|bid: u32|
                    {
                        &&& first_free(a.pending().dom(), a.counter(), bid, b.counter())
                        &&& b.pending() == a.pending().insert(bid, (ask.id, origin))
                        &&& b.handlers_view() == a.handlers_view().insert(
                            ask.path@,
                            (l, next_turn(t)),
                        )
                        &&& b.events_view() == a.events_view()
                        &&& r == Ok::<Action, BrokerError>(
                            Action::Send(
                                l[(t as int) % (l.len() as int)],
                                Message {
                                    payload: Payload::RequestAsk(
                                        RequestAsk { id: bid, path: ask.path, data: ask.data },
                                    ),
                                },
                            ),
                        )
                    }
            }
        },
        Payload::RequestResponse(resp) => {
            if a.pending().contains_key(resp.id) {
                let (cid, target) = a.pending()[resp.id];
                &&& b.pending() == a.pending().remove(resp.id)
                &&& b.handlers_view() == a.handlers_view()
                &&& b.events_view() == a.events_view()
                &&& b.counter() == a.counter()
                &&& r == Ok::<Action, BrokerError>(
                    Action::Send(
                        target,
                        Message {
                            payload: Payload::RequestResponse(
                                RequestResponse { id: cid, data: resp.data },
                            ),
                        },
                    ),
                )
            } else {
                same_state(a, b) && r == Err::<Action, BrokerError>(
                    BrokerError::StaleResponse(resp.id),
                )
            }
        },
    }
}

impl Registry {
    pub closed spec fn events_view(&self) -> Map<Seq<char>, (Seq<ConnectionID>, u32)> {
        self.events_subscribers@
    }

    pub closed spec fn handlers_view(&self) -> Map<Seq<char>, (Seq<ConnectionID>, u32)> {
        self.request_handlers@
    }

    /// The event subscribers of `p`, in order of subscription.
    pub open spec fn events(&self, p: Seq<char>) -> Seq<ConnectionID> {
        if self.events_view().contains_key(p) { self.events_view()[p].0 } else { Seq::empty() }
    }

    /// The request handlers of `p`, in order of registration.
    pub open spec fn handlers(&self, p: Seq<char>) -> Seq<ConnectionID> {
        if self.handlers_view().contains_key(p) { self.handlers_view()[p].0 } else { Seq::empty() }
    }

    /// The round-robin counter of `p`.
    pub open spec fn turn(&self, p: Seq<char>) -> u32 {
        if self.handlers_view().contains_key(p) { self.handlers_view()[p].1 } else { 0 }
    }

    /// Broker id to (client's id, asking connection), for every ask in flight.
    pub closed spec fn pending(&self) -> Map<u32, (u32, ConnectionID)> {
        self.request_pending@
    }

    /// The next broker id to try.
    pub closed spec fn counter(&self) -> u32 {
        self.request_count
    }

    /// Whether `id` stands in some handler or subscriber list.
    pub open spec fn listed(&self, id: ConnectionID) -> bool {
        (exists|p: Seq<char>| #[trigger] self.events(p).contains(id)) || (exists|p: Seq<char>|
            #[trigger] self.handlers(p).contains(id))
    }

    pub closed spec fn wf(&self) -> bool {
        self.events_subscribers.wf() && self.request_handlers.wf()
    }

    pub fn new() -> (r: Self)
        ensures
            r.wf(),
            r.events_view() == Map::<Seq<char>, (Seq<ConnectionID>, u32)>::empty(),
            r.handlers_view() == Map::<Seq<char>, (Seq<ConnectionID>, u32)>::empty(),
            r.pending() == Map::<u32, (u32, ConnectionID)>::empty(),
            r.counter() == 0,
    {
        Registry {
            events_subscribers: PathTable::new(),
            request_handlers: PathTable::new(),
            request_pending: HashMap::new(),
            request_count: 0,
        }
    }

    /// Appends `id` to the event subscribers of `path`.
    pub fn event_subscribe(&mut self, path: &str, id: ConnectionID) -> (r: Result<(), String>)
        requires
            old(self).wf(),
        ensures
            final(self).wf(),
            r is Ok,
            final(self).events(path@) == old(self).events(path@).push(id),
            forall|q: Seq<char>| q != path@ ==> #[trigger] final(self).events(q) == old(self).events(q),
            final(self).handlers_view() == old(self).handlers_view(),
            final(self).pending() == old(self).pending(),
            final(self).counter() == old(self).counter(),
    {
        self.events_subscribers.push(path.to_owned(), id);
        Ok(())
    }

    /// Removes every occurrence of `id` from the event subscribers of `path`.
    pub fn event_unsubscribe(&mut self, path: &str, id: ConnectionID)
        requires
            old(self).wf(),
        ensures
            final(self).wf(),
            final(self).events(path@) == old(self).events(path@).filter(keeps(id)),
            forall|q: Seq<char>| q != path@ ==> #[trigger] final(self).events(q) == old(self).events(q),
            final(self).handlers_view() == old(self).handlers_view(),
            final(self).pending() == old(self).pending(),
            final(self).counter() == old(self).counter(),
    {
        let key = path.to_owned();
        self.events_subscribers.remove(&key, id);
        proof { empty_filter(id); }
    }

    /// The event subscribers of `path`.
    pub fn event_subscribers(&self, path: &str) -> (r: Vec<ConnectionID>)
        requires
            self.wf(),
        ensures
            r@ == self.events(path@),
    {
        self.events_subscribers.get(&path.to_owned())
    }

    /// Appends `id` to the request handlers of `path`.
    pub fn request_subscribe(&mut self, path: String, id: ConnectionID)
        requires
            old(self).wf(),
        ensures
            final(self).wf(),
            registered(old(self), final(self), path@, id),
    {
        self.request_handlers.push(path, id);
    }

    /// Removes every occurrence of `id` from the request handlers of `path`.
    pub fn request_unsubscribe(&mut self, path: &str, id: ConnectionID)
        requires
            old(self).wf(),
        ensures
            final(self).wf(),
            unregistered(old(self), final(self), path@, id),
    {
        let key = path.to_owned();
        self.request_handlers.remove(&key, id);
        proof { empty_filter(id); }
    }

    /// The request handlers of `path`.
    pub fn request_subscribers(&self, path: &str) -> (r: Vec<ConnectionID>)
        requires
            self.wf(),
        ensures
            r@ == self.handlers(path@),
    {
        self.request_handlers.get(&path.to_owned())
    }

    /// Whether `id` stands in any handler or subscriber list.
    pub fn is_active(&self, id: ConnectionID) -> (r: bool)
        requires
            self.wf(),
        ensures
            r == self.listed(id),
    {
        let a = self.events_subscribers.contains(id);
        let b = self.request_handlers.contains(id);
        proof {
            if a {
                let p = choose|p: Seq<char>| #[trigger] self.events_subscribers.list(p).contains(id);
                assert(self.events(p).contains(id));
            } else if b {
                let p = choose|p: Seq<char>| #[trigger] self.request_handlers.list(p).contains(id);
                assert(self.handlers(p).contains(id));
            } else {
                assert forall|p: Seq<char>| !#[trigger] self.events(p).contains(id) by {
                    assert(!self.events_subscribers.list(p).contains(id));
                }
                assert forall|p: Seq<char>| !#[trigger] self.handlers(p).contains(id) by {
                    assert(!self.request_handlers.list(p).contains(id));
                }
            }
        }
        a || b
    }

    /// Removes `id` from every handler and subscriber list.
    pub fn purge(&mut self, id: ConnectionID)
        requires
            old(self).wf(),
        ensures
            final(self).wf(),
            purged(old(self), final(self), id),
            !final(self).listed(id),
    {
        self.events_subscribers.purge(id);
        self.request_handlers.purge(id);
        assert(purged(old(self), self, id)) by {
            assert forall|p: Seq<char>| #[trigger] self.events(p) == old(self).events(p).filter(keeps(id)) by {
                assert(self.events_subscribers.list(p) == old(self).events_subscribers.list(p).filter(keeps(id)));
            }
            assert forall|p: Seq<char>| #[trigger] self.handlers(p) == old(self).handlers(p).filter(keeps(id)) by {
                assert(self.request_handlers.list(p) == old(self).request_handlers.list(p).filter(keeps(id)));
            }
            assert forall|p: Seq<char>| #[trigger] self.turn(p) == old(self).turn(p) by {
                assert(self.request_handlers.turn(p) == old(self).request_handlers.turn(p));
            }
        }
        proof { lemma_purged_unlisted(old(self), self, id); }
    }

    /// The number of asks in flight.
    pub fn pending_len(&self) -> (r: usize)
        ensures
            r == self.pending().len(),
    {
        self.request_pending.len()
    }

    /// Routes one message from `origin`: a disconnect purges it, a register
    /// appends it, an ask goes to the next handler of its path under a fresh
    /// broker id, and a response goes back to the asker under the asker's id.
    pub fn handle_message(&mut self, origin: ConnectionID, msg: Message) -> (r: Result<
        Action,
        BrokerError,
    >)
        requires
            old(self).wf(),
            old(self).pending().len() < ID_SPACE,
        ensures
            final(self).wf(),
            routed(old(self), final(self), origin, msg, r),
    {
        match msg.payload {
            Payload::Control(control) => match control {
                Control::Disconnect => {
                    self.purge(origin);
                    Ok(Action::Done)
                },
                _ => Ok(Action::Done),
            },
            Payload::RequestRegister(register) => {
                self.request_subscribe(register.path, origin);
                Ok(Action::Done)
            },
            Payload::RequestAsk(request) => {
                match self.request_handlers.take_turn(&request.path) {
                    None => Ok(Action::Done),
                    Some(handler) => {
                        let (bid, next) = fresh_key(&self.request_pending, self.request_count);
                        self.request_count = next;
                        self.request_pending.insert(bid, (request.id, origin));
                        let forwarded = RequestAsk { id: bid, path: request.path, data: request.data };
                        let r = Ok(
                            Action::Send(
                                handler,
                                Message { payload: Payload::RequestAsk(forwarded) },
                            ),
                        );
                        assert(self.pending() == old(self).pending().insert(bid, (request.id, origin)));
                        r
                    },
                }
            },
            Payload::RequestResponse(response) => {
                match self.request_pending.remove(&response.id) {
                    Some((cid, target)) => {
                        let back = RequestResponse { id: cid, data: response.data };
                        Ok(Action::Send(target, Message { payload: Payload::RequestResponse(back) }))
                    },
                    None => {
                        assert(self.request_pending@ =~= old(self).request_pending@);
                        Err(BrokerError::StaleResponse(response.id))
                    },
                }
            },
        }
    }
}

/// Filtering the empty list leaves it empty.
proof fn empty_filter(id: ConnectionID)
    ensures
        Seq::<ConnectionID>::empty().filter(keeps(id)) == Seq::<ConnectionID>::empty(),
{
    reveal(Seq::filter);
    assert(Seq::<ConnectionID>::empty().filter(keeps(id)) =~= Seq::<ConnectionID>::empty());
}

/// After a purge of `id`, no list holds `id`.
pub proof fn lemma_purged_unlisted(a: &Registry, b: &Registry, id: ConnectionID)
    requires
        purged(a, b, id),
    ensures
        !b.listed(id),
{
    assert forall|p: Seq<char>| !#[trigger] b.events(p).contains(id) by {
        filter_drops(a.events(p), id);
    }
    assert forall|p: Seq<char>| !#[trigger] b.handlers(p).contains(id) by {
        filter_drops(a.handlers(p), id);
    }
}

/// A list filtered by `keeps(id)` holds no `id`.
pub proof fn filter_drops(s: Seq<ConnectionID>, id: ConnectionID)
    ensures
        !s.filter(keeps(id)).contains(id),
{
    broadcast use Seq::lemma_filter_pred;
    let f = s.filter(keeps(id));
    if f.contains(id) {
        let i = choose|i: int| 0 <= i < f.len() && f[i] == id;
        s.lemma_filter_pred(keeps(id), i);
    }
}

} // verus!
