use vstd::prelude::*;
use crate::message::{Message, Payload, RequestAsk, RequestRegister, RequestResponse};

verus! {

/// A handler of one request path, as the responder stores it.
pub struct Handler<F> {
    pub handler: F,
}

impl<F> Handler<F> {
    pub fn new(handler: F) -> (r: Self)
        ensures
            r.handler == handler,
    {
        Handler { handler }
    }

    /// The stored handler itself.
    pub fn consume(self) -> (r: F)
        ensures
            r == self.handler,
    {
        self.handler
    }
}

/// One path with its handler.
pub struct Route<F> {
    pub path: String,
    pub handler: F,
}

/// A responder's handlers, one per path, in order of first registration.
pub struct Responder<F> {
    routes: Vec<Route<F>>,
    model: Ghost<Map<Seq<char>, F>>,
}

impl<F> Responder<F> {
    /// Path to handler.
    pub closed spec fn view(&self) -> Map<Seq<char>, F> {
        self.model@
    }

    /// The registered paths, in order of first registration.
    pub closed spec fn paths(&self) -> Seq<Seq<char>> {
        self.routes@.map_values(|r: Route<F>| r.path@)
    }

    pub closed spec fn wf(&self) -> bool {
        &&& forall|i: int, j: int|
            0 <= i < j < self.routes@.len() ==> self.routes@[i].path@ != self.routes@[j].path@
        &&& forall|i: int|
            0 <= i < self.routes@.len() ==> {
                &&& self.model@.contains_key(#[trigger] self.routes@[i].path@)
                &&& self.model@[self.routes@[i].path@] == self.routes@[i].handler
            }
        &&& forall|p: Seq<char>|
            #[trigger] self.model@.contains_key(p) ==> exists|i: int|
                0 <= i < self.routes@.len() && self.routes@[i].path@ == p
    }

    pub fn new() -> (r: Self)
        ensures
            r.wf(),
            r@ == Map::<Seq<char>, F>::empty(),
    {
        Responder { routes: Vec::new(), model: Ghost(Map::empty()) }
    }

    fn find(&self, path: &String) -> (r: Option<usize>)
        requires
            self.wf(),
        ensures
            match r {
                Some(i) => i < self.routes@.len() && self.routes@[i as int].path@ == path@,
                None => !self@.contains_key(path@),
            },
    {
        let mut i: usize = 0;
        while i < self.routes.len()
            invariant
                i <= self.routes@.len(),
                forall|j: int| 0 <= j < i ==> self.routes@[j].path@ != path@,
            decreases self.routes@.len() - i,
        {
            if self.routes[i].path == *path {
                return Some(i);
            }
            i = i + 1;
        }
        None
    }

    /// Sets the handler of `path`, replacing an earlier one.
    pub fn register(&mut self, path: String, handler: Handler<F>)
        requires
            old(self).wf(),
        ensures
            final(self).wf(),
            final(self)@ == old(self)@.insert(path@, handler.handler),
    {
        let ghost key = path@;
        let f = handler.consume();
        let ghost g = f;
        match self.find(&path) {
            Some(i) => {
                let old_route = self.routes.remove(i);
                let route = Route { path: old_route.path, handler: f };
                let ghost e = route;
                self.routes.insert(i, route);
                assert(self.routes@ =~= old(self).routes@.update(i as int, e));
                self.model = Ghost(self.model@.insert(key, g));
                assert forall|p: Seq<char>| #[trigger] self.model@.contains_key(p) implies exists|k: int|
                    0 <= k < self.routes@.len() && self.routes@[k].path@ == p by {
                    if p != key {
                        let k = choose|k: int|
                            0 <= k < old(self).routes@.len() && old(self).routes@[k].path@ == p;
                        assert(self.routes@[k].path@ == p);
                    } else {
                        assert(self.routes@[i as int].path@ == p);
                    }
                }
            },
            None => {
                let route = Route { path, handler: f };
                let ghost e = route;
                self.routes.push(route);
                assert(self.routes@ =~= old(self).routes@.push(e));
                self.model = Ghost(self.model@.insert(key, g));
                assert forall|k: int| 0 <= k < old(self).routes@.len() implies
                    #[trigger] old(self).routes@[k].path@ != key by {
                    assert(old(self).model@.contains_key(old(self).routes@[k].path@));
                }
                assert forall|k: int| 0 <= k < self.routes@.len() implies {
                    &&& self.model@.contains_key(#[trigger] self.routes@[k].path@)
                    &&& self.model@[self.routes@[k].path@] == self.routes@[k].handler
                } by {
                    if k < old(self).routes@.len() {
                        assert(self.routes@[k] == old(self).routes@[k]);
                        assert(old(self).routes@[k].path@ != key);
                    }
                }
                assert forall|a: int, b: int| 0 <= a < b < self.routes@.len() implies
                    self.routes@[a].path@ != self.routes@[b].path@ by {
                    if b == old(self).routes@.len() {
                        assert(old(self).routes@[a].path@ != key);
                    }
                }
                assert forall|p: Seq<char>| #[trigger] self.model@.contains_key(p) implies exists|k: int|
                    0 <= k < self.routes@.len() && self.routes@[k].path@ == p by {
                    if p != key {
                        let k = choose|k: int|
                            0 <= k < old(self).routes@.len() && old(self).routes@[k].path@ == p;
                        assert(self.routes@[k].path@ == p);
                    } else {
                        assert(self.routes@[self.routes@.len() - 1].path@ == p);
                    }
                }
            },
        }
    }

    /// The handler for an incoming message, with the ask it is to answer:
    /// only an ask on a registered path has one.
    pub fn handle(&self, message: Message) -> (r: Option<(&F, RequestAsk)>)
        requires
            self.wf(),
        ensures
            match message.payload {
                Payload::RequestAsk(ask) => if self@.contains_key(ask.path@) {
                    r == Some((&self@[ask.path@], ask))
                } else {
                    r.is_none()
                },
                _ => r.is_none(),
            },
    {
        match message.payload {
            Payload::RequestAsk(request) => match self.find(&request.path) {
                Some(i) => Some((&self.routes[i].handler, request)),
                None => None,
            },
            _ => None,
        }
    }

    /// One register message per path, in order of first registration.
    pub fn registrations(&self) -> (r: Vec<Message>)
        requires
            self.wf(),
        ensures
            r@.len() == self.paths().len(),
            forall|i: int|
                0 <= i < r@.len() ==> match #[trigger] r@[i].payload {
                    Payload::RequestRegister(reg) => reg.path@ == self.paths()[i],
                    _ => false,
                },
    {
        let mut out: Vec<Message> = Vec::new();
        let mut i: usize = 0;
        while i < self.routes.len()
            invariant
                0 <= i <= self.routes@.len(),
                out@.len() == i,
                forall|k: int|
                    0 <= k < i ==> match #[trigger] out@[k].payload {
                        Payload::RequestRegister(reg) => reg.path@ == self.routes@[k].path@,
                        _ => false,
                    },
            decreases self.routes@.len() - i,
        {
            let path = self.routes[i].path.clone();
            out.push(Message { payload: Payload::RequestRegister(RequestRegister { path }) });
            i = i + 1;
        }
        out
    }
}

/// The response that answers the ask `id` with `data`.
pub fn response_message(id: u32, data: Vec<u8>) -> (r: Message)
    ensures
        r.payload == Payload::RequestResponse(RequestResponse { id, data }),
{
    Message { payload: Payload::RequestResponse(RequestResponse { id, data }) }
}

} // verus!
