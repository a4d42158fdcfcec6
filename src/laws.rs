use vstd::prelude::*;
use crate::frame::{be_bytes, be_value, frame_of, lemma_be_round_trip};
use crate::id::ConnectionID;
use crate::message::{Control, Message, Payload, RequestAsk, RequestResponse};
use crate::registry::{
    filter_drops, lemma_purged_unlisted, purged, registered, routed, unregistered, Action,
    BrokerError, Registry,
};
use crate::table::keeps;

verus! {

broadcast use vstd::seq_lib::group_seq_properties;

/// One change to the handler list of a path.
pub enum Subscription {
    Subscribe(ConnectionID),
    Unsubscribe(ConnectionID),
}

/// The list after one change, as `request_subscribe` and
/// `request_unsubscribe` make it.
pub open spec fn apply(s: Seq<ConnectionID>, op: Subscription) -> Seq<ConnectionID> {
    match op {
        Subscription::Subscribe(id) => s.push(id),
        Subscription::Unsubscribe(id) => s.filter(keeps(id)),
    }
}

/// The list after all of `ops`, starting empty.
pub open spec fn replay(ops: Seq<Subscription>) -> Seq<ConnectionID>
    decreases ops.len(),
{
    if ops.len() == 0 {
        Seq::empty()
    } else {
        apply(replay(ops.drop_last()), ops.last())
    }
}

/// The connections subscribed by `ops` and not unsubscribed later, one per
/// subscription, in order of subscription.
pub open spec fn survivors(ops: Seq<Subscription>) -> Seq<ConnectionID>
    decreases ops.len(),
{
    if ops.len() == 0 {
        Seq::empty()
    } else {
        let rest = ops.drop_first();
        match ops[0] {
            Subscription::Subscribe(id) => if rest.contains(Subscription::Unsubscribe(id)) {
                survivors(rest)
            } else {
                seq![id] + survivors(rest)
            },
            Subscription::Unsubscribe(_) => survivors(rest),
        }
    }
}

proof fn lemma_survivors_push(pre: Seq<Subscription>, op: Subscription)
    ensures
        survivors(pre.push(op)) == apply(survivors(pre), op),
    decreases pre.len(),
{
    let all = pre.push(op);
    if pre.len() == 0 {
        assert(all.drop_first() =~= Seq::<Subscription>::empty());
        match op {
            Subscription::Subscribe(id) => {
                assert(seq![id] + Seq::<ConnectionID>::empty() =~= Seq::<ConnectionID>::empty().push(id));
            },
            Subscription::Unsubscribe(id) => {
                reveal(Seq::filter);
                assert(Seq::<ConnectionID>::empty().filter(keeps(id)) =~= Seq::<ConnectionID>::empty());
            },
        }
    } else {
        let rest = pre.drop_first();
        assert(all.drop_first() =~= rest.push(op));
        lemma_survivors_push(rest, op);
        let s = survivors(rest);
        match pre[0] {
            Subscription::Unsubscribe(_) => {},
            Subscription::Subscribe(i) => {
                let u = Subscription::Unsubscribe(i);
                if rest.contains(u) {
                    assert(rest.push(op).contains(u)) by {
                        let k = choose|k: int| 0 <= k < rest.len() && rest[k] == u;
                        assert(rest.push(op)[k] == u);
                    }
                } else if op == u {
                    assert(rest.push(op)[rest.len() as int] == u);
                    s.lemma_filter_prepend(i, keeps(i));
                } else {
                    assert(!rest.push(op).contains(u)) by {
                        if rest.push(op).contains(u) {
                            let k = choose|k: int| 0 <= k < rest.len() + 1 && rest.push(op)[k] == u;
                            assert(rest[k] == u);
                        }
                    }
                    match op {
                        Subscription::Subscribe(j) => {
                            assert(seq![i] + s.push(j) =~= (seq![i] + s).push(j));
                        },
                        Subscription::Unsubscribe(j) => {
                            s.lemma_filter_prepend(i, keeps(j));
                        },
                    }
                }
            },
        }
    }
}

/// Replaying subscriptions and unsubscriptions leaves exactly the ids that
/// are still subscribed, in order of subscription, one per subscription.
pub proof fn law_replay_keeps_survivors(ops: Seq<Subscription>)
    ensures
        replay(ops) == survivors(ops),
    decreases ops.len(),
{
    if ops.len() > 0 {
        law_replay_keeps_survivors(ops.drop_last());
        lemma_survivors_push(ops.drop_last(), ops.last());
        assert(ops.drop_last().push(ops.last()) =~= ops);
    }
}

/// For every run of request subscriptions and unsubscriptions on one path,
/// starting from an empty list, the handlers of that path are the ids still
/// subscribed, in order of subscription.
pub proof fn law_subscribers_in_order(
    ops: Seq<Subscription>,
    states: Seq<Registry>,
    p: Seq<char>,
)
    requires
        states.len() == ops.len() + 1,
        states[0].handlers(p) == Seq::<ConnectionID>::empty(),
        forall|i: int|
            0 <= i < ops.len() ==> match #[trigger] ops[i] {
                Subscription::Subscribe(id) => registered(&states[i], &states[i + 1], p, id),
                Subscription::Unsubscribe(id) => unregistered(&states[i], &states[i + 1], p, id),
            },
    ensures
        states.last().handlers(p) == survivors(ops),
{
    assert forall|n: int| 0 <= n <= ops.len() implies #[trigger] states[n].handlers(p) == replay(
        ops.take(n),
    ) by {
        lemma_states_replay(ops, states, p, n);
    }
    assert(ops.take(ops.len() as int) =~= ops);
    law_replay_keeps_survivors(ops);
}

proof fn lemma_states_replay(ops: Seq<Subscription>, states: Seq<Registry>, p: Seq<char>, n: int)
    requires
        states.len() == ops.len() + 1,
        0 <= n <= ops.len(),
        states[0].handlers(p) == Seq::<ConnectionID>::empty(),
        forall|i: int|
            0 <= i < ops.len() ==> match #[trigger] ops[i] {
                Subscription::Subscribe(id) => registered(&states[i], &states[i + 1], p, id),
                Subscription::Unsubscribe(id) => unregistered(&states[i], &states[i + 1], p, id),
            },
    ensures
        states[n].handlers(p) == replay(ops.take(n)),
    decreases n,
{
    if n > 0 {
        lemma_states_replay(ops, states, p, n - 1);
        assert(ops.take(n).drop_last() =~= ops.take(n - 1));
        let op = ops[n - 1];
        match op {
            Subscription::Subscribe(id) => {
                assert(registered(&states[n - 1], &states[n], p, id));
            },
            Subscription::Unsubscribe(id) => {
                assert(unregistered(&states[n - 1], &states[n], p, id));
            },
        }
    }
}

/// An ask routed to a handler comes back, when that handler responds, to the
/// asking connection under the asker's own id with the handler's data; a
/// second response under the same broker id finds nothing pending.
pub proof fn law_response_reaches_asker(
    r0: &Registry,
    r1: &Registry,
    r2: &Registry,
    r3: &Registry,
    client: ConnectionID,
    ask: RequestAsk,
    handler: ConnectionID,
    forwarded: RequestAsk,
    responder: ConnectionID,
    data: Vec<u8>,
    answer: Result<Action, BrokerError>,
    again: Vec<u8>,
    late: Result<Action, BrokerError>,
)
    requires
        routed(
            r0,
            r1,
            client,
            Message { payload: Payload::RequestAsk(ask) },
            Ok(Action::Send(handler, Message { payload: Payload::RequestAsk(forwarded) })),
        ),
        routed(
            r1,
            r2,
            responder,
            Message { payload: Payload::RequestResponse(RequestResponse { id: forwarded.id, data }) },
            answer,
        ),
        routed(
            r2,
            r3,
            responder,
            Message {
                payload: Payload::RequestResponse(RequestResponse { id: forwarded.id, data: again }),
            },
            late,
        ),
    ensures
        answer == Ok::<Action, BrokerError>(
            Action::Send(
                client,
                Message {
                    payload: Payload::RequestResponse(RequestResponse { id: ask.id, data }),
                },
            ),
        ),
        late == Err::<Action, BrokerError>(BrokerError::StaleResponse(forwarded.id)),
{
    let l = r0.handlers(ask.path@);
    if l.len() == 0 {
        assert(false);
    }
    let bid = choose|bid: u32|
        {
            &&& crate::fresh::first_free(r0.pending().dom(), r0.counter(), bid, r1.counter())
            &&& r1.pending() == r0.pending().insert(bid, (ask.id, client))
            &&& r1.handlers_view() == r0.handlers_view().insert(
                ask.path@,
                (l, crate::table::next_turn(r0.turn(ask.path@))),
            )
            &&& r1.events_view() == r0.events_view()
            &&& Ok::<Action, BrokerError>(
                Action::Send(handler, Message { payload: Payload::RequestAsk(forwarded) }),
            ) == Ok::<Action, BrokerError>(
                Action::Send(
                    l[(r0.turn(ask.path@) as int) % (l.len() as int)],
                    Message {
                        payload: Payload::RequestAsk(
                            RequestAsk { id: bid, path: ask.path, data: ask.data },
                        ),
                    },
                ),
            )
        };
    assert(forwarded.id == bid);
    assert(r1.pending().contains_key(bid));
    assert(!r2.pending().contains_key(bid));
}

/// A disconnect leaves the connection in no handler or subscriber list.
pub proof fn law_disconnect_unlists(
    a: &Registry,
    b: &Registry,
    id: ConnectionID,
    r: Result<Action, BrokerError>,
)
    requires
        routed(a, b, id, Message { payload: Payload::Control(Control::Disconnect) }, r),
    ensures
        !b.listed(id),
        r == Ok::<Action, BrokerError>(Action::Done),
{
    lemma_purged_unlisted(a, b, id);
}

/// Registering the same connection twice on a path lists it twice.
pub proof fn law_register_appends(
    a: &Registry,
    b: &Registry,
    c: &Registry,
    p: Seq<char>,
    id: ConnectionID,
)
    requires
        registered(a, b, p, id),
        registered(b, c, p, id),
    ensures
        c.handlers(p) == a.handlers(p) + seq![id, id],
        c.handlers(p).len() == a.handlers(p).len() + 2,
{
    assert(c.handlers(p) =~= a.handlers(p) + seq![id, id]);
}

proof fn lemma_filter_all(s: Seq<ConnectionID>, id: ConnectionID)
    requires
        !s.contains(id),
    ensures
        s.filter(keeps(id)) == s,
    decreases s.len(),
{
    reveal(Seq::filter);
    if s.len() > 0 {
        assert(!s.drop_last().contains(id)) by {
            if s.drop_last().contains(id) {
                let k = choose|k: int| 0 <= k < s.len() - 1 && s.drop_last()[k] == id;
                assert(s[k] == id);
            }
        }
        lemma_filter_all(s.drop_last(), id);
        assert(s.last() != id);
        assert(s.drop_last().push(s.last()) =~= s);
    } else {
        assert(s.filter(keeps(id)) =~= s);
    }
}

/// Purging a connection a second time changes nothing.
pub proof fn law_purge_idempotent(a: &Registry, b: &Registry, c: &Registry, id: ConnectionID)
    requires
        purged(a, b, id),
        purged(b, c, id),
    ensures
        forall|p: Seq<char>| #[trigger] c.events(p) == b.events(p),
        forall|p: Seq<char>| #[trigger] c.handlers(p) == b.handlers(p),
        forall|p: Seq<char>| #[trigger] c.turn(p) == b.turn(p),
        c.pending() == b.pending(),
        c.counter() == b.counter(),
{
    assert forall|p: Seq<char>| #[trigger] c.events(p) == b.events(p) by {
        filter_drops(a.events(p), id);
        lemma_filter_all(b.events(p), id);
    }
    assert forall|p: Seq<char>| #[trigger] c.handlers(p) == b.handlers(p) by {
        filter_drops(a.handlers(p), id);
        lemma_filter_all(b.handlers(p), id);
    }
}

/// A frame read back gives its payload's length, and then the payload.
pub proof fn law_frame_round_trip(payload: Seq<u8>, rest: Seq<u8>)
    requires
        payload.len() <= u32::MAX,
    ensures
        be_value(frame_of(payload) + rest) == payload.len(),
        (frame_of(payload) + rest).subrange(4, 4 + payload.len() as int) == payload,
{
    lemma_be_round_trip(payload.len() as u32);
    let f = frame_of(payload) + rest;
    assert(f.subrange(0, 4) =~= be_bytes(payload.len() as u32));
    assert(f[0] == be_bytes(payload.len() as u32)[0]);
    assert(f[1] == be_bytes(payload.len() as u32)[1]);
    assert(f[2] == be_bytes(payload.len() as u32)[2]);
    assert(f[3] == be_bytes(payload.len() as u32)[3]);
    assert(f.subrange(4, 4 + payload.len() as int) =~= payload);
}

/// After a resume of `id` on a new session, every lookup of `id` finds that
/// session's queue, however many other identities are bound meanwhile.
pub proof fn law_resume_reaches_new_stream<S>(
    before: Map<u32, S>,
    after: Map<u32, S>,
    id: u32,
    sink: S,
    others: Seq<(u32, S)>,
)
    requires
        after == before.insert(id, sink),
        forall|i: int| 0 <= i < others.len() ==> (#[trigger] others[i]).0 != id,
    ensures
        rebind_all(after, others).contains_key(id),
        rebind_all(after, others)[id] == sink,
    decreases others.len(),
{
    if others.len() > 0 {
        law_resume_reaches_new_stream(before, after, id, sink, others.drop_last());
        assert(others.last().0 != id);
    }
}

/// The table after the sessions in `binds` were bound, in order.
pub open spec fn rebind_all<S>(m: Map<u32, S>, binds: Seq<(u32, S)>) -> Map<u32, S>
    decreases binds.len(),
{
    if binds.len() == 0 {
        m
    } else {
        rebind_all(m, binds.drop_last()).insert(binds.last().0, binds.last().1)
    }
}

/// How many of `n` consecutive asks, the first taken at turn `t`, go to the
/// handler at index `h` of a list of `k`: the `i`-th goes to `(t + i) % k`.
pub open spec fn hits(t: int, n: nat, k: nat, h: int) -> nat
    decreases n,
{
    if n == 0 {
        0
    } else {
        hits(t, (n - 1) as nat, k, h) + if (t + n - 1) % (k as int) == h {
            1nat
        } else {
            0nat
        }
    }
}

proof fn lemma_step_div(m: int, k: int)
    requires
        m >= 0,
        k > 0,
    ensures
        (m + 1) / k == m / k + if (m + 1) % k == 0 { 1int } else { 0int },
{
    vstd::arithmetic::div_mod::lemma_fundamental_div_mod(m, k);
    vstd::arithmetic::div_mod::lemma_mod_pos_bound(m, k);
    let q = m / k;
    let s = m % k;
    if s == k - 1 {
        assert(m + 1 == (q + 1) * k + 0) by (nonlinear_arith)
            requires
                m == k * q + s,
                s == k - 1,
        ;
        vstd::arithmetic::div_mod::lemma_fundamental_div_mod_converse(m + 1, k, q + 1, 0);
    } else {
        assert(m + 1 == q * k + (s + 1)) by (nonlinear_arith)
            requires
                m == k * q + s,
        ;
        vstd::arithmetic::div_mod::lemma_fundamental_div_mod_converse(m + 1, k, q, s + 1);
    }
}

proof fn lemma_hits_closed(t: int, n: nat, k: nat, h: int)
    requires
        k > 0,
        0 <= h < k,
    ensures
        hits(t, n, k, h) == (n + k - 1 - (h - t) % (k as int)) / (k as int),
    decreases n,
{
    let ki = k as int;
    let r = (h - t) % ki;
    vstd::arithmetic::div_mod::lemma_fundamental_div_mod(h - t, ki);
    vstd::arithmetic::div_mod::lemma_mod_bound(h - t, ki);
    if n == 0 {
        vstd::arithmetic::div_mod::lemma_basic_div(k - 1 - r, ki);
    } else {
        lemma_hits_closed(t, (n - 1) as nat, k, h);
        let m = n - 1 + k - 1 - r;
        let x = t + n - 1;
        lemma_step_div(m, ki);
        // m + 1 and x - h differ by a multiple of k
        let q = 1 + (h - t) / ki;
        assert(m + 1 == ki * q + (x - h)) by (nonlinear_arith)
            requires
                h - t == ki * ((h - t) / ki) + r,
                m == n - 1 + k - 1 - r,
                x == t + n - 1,
                q == 1 + (h - t) / ki,
                ki == k,
        ;
        vstd::arithmetic::div_mod::lemma_mod_multiples_vanish(q, x - h, ki);
        // x % k == h exactly when k divides x - h
        vstd::arithmetic::div_mod::lemma_fundamental_div_mod(x, ki);
        vstd::arithmetic::div_mod::lemma_mod_bound(x, ki);
        vstd::arithmetic::div_mod::lemma_fundamental_div_mod(x - h, ki);
        if x % ki == h {
            assert(x - h == (x / ki) * ki + 0) by (nonlinear_arith)
                requires
                    x == ki * (x / ki) + x % ki,
                    x % ki == h,
            ;
            vstd::arithmetic::div_mod::lemma_fundamental_div_mod_converse(x - h, ki, x / ki, 0);
        }
        if (x - h) % ki == 0 {
            assert(x == ((x - h) / ki) * ki + h) by (nonlinear_arith)
                requires
                    x - h == ki * ((x - h) / ki) + (x - h) % ki,
                    (x - h) % ki == 0,
            ;
            vstd::arithmetic::div_mod::lemma_fundamental_div_mod_converse(x, ki, (x - h) / ki, h);
        }
    }
}

/// Round-robin fairness: of `n` consecutive asks over `k` handlers, each
/// handler receives `n / k` of them, rounded down or up.
pub proof fn law_round_robin_fair(t: int, n: nat, k: nat, h: int)
    requires
        k > 0,
        0 <= h < k,
    ensures
        hits(t, n, k, h) == (n as int) / (k as int) || hits(t, n, k, h) == (n + k - 1) / (k as int),
{
    let ki = k as int;
    lemma_hits_closed(t, n, k, h);
    let r = (h - t) % ki;
    vstd::arithmetic::div_mod::lemma_mod_bound(h - t, ki);
    let c = (n + k - 1 - r) / ki;
    vstd::arithmetic::div_mod::lemma_div_is_ordered(n as int, n + k - 1 - r, ki);
    vstd::arithmetic::div_mod::lemma_div_is_ordered(n + k - 1 - r, n + k - 1, ki);
    vstd::arithmetic::div_mod::lemma_div_is_ordered(n + k - 1, (n + k) as int, ki);
    vstd::arithmetic::div_mod::lemma_div_plus_one(n as int, ki);
    assert(ki + n == n + k);
}

/// Consecutive asks on a path whose handler list stays the same go to
/// consecutive handlers: the `i`-th ask is sent to index `(t + i) % k`.
pub proof fn law_asks_take_turns(
    states: Seq<Registry>,
    origins: Seq<ConnectionID>,
    asks: Seq<RequestAsk>,
    results: Seq<Result<Action, BrokerError>>,
    p: Seq<char>,
)
    requires
        states.len() == asks.len() + 1,
        origins.len() == asks.len(),
        results.len() == asks.len(),
        states[0].handlers(p).len() > 0,
        states[0].turn(p) + asks.len() <= u32::MAX,
        forall|i: int| 0 <= i < asks.len() ==> (#[trigger] asks[i]).path@ == p,
        forall|i: int|
            0 <= i < asks.len() ==> routed(
                &states[i],
                &states[i + 1],
                origins[i],
                Message { payload: Payload::RequestAsk(#[trigger] asks[i]) },
                results[i],
            ),
    ensures
        forall|i: int|
            0 <= i < asks.len() ==> match #[trigger] results[i] {
                Ok(Action::Send(target, _)) => target == states[0].handlers(p)[(states[0].turn(p)
                    + i) % (states[0].handlers(p).len() as int)],
                _ => false,
            },
{
    let l = states[0].handlers(p);
    let t = states[0].turn(p);
    assert forall|i: int| 0 <= i <= asks.len() implies #[trigger] states[i].handlers(p) == l
        && states[i].turn(p) == t + i by {
        lemma_turns(states, origins, asks, results, p, i);
    }
    assert forall|i: int| 0 <= i < asks.len() implies match #[trigger] results[i] {
        Ok(Action::Send(target, _)) => target == l[(t + i) % (l.len() as int)],
        _ => false,
    } by {
        assert(states[i].handlers(p) == l && states[i].turn(p) == t + i);
        assert(routed(
            &states[i],
            &states[i + 1],
            origins[i],
            Message { payload: Payload::RequestAsk(asks[i]) },
            results[i],
        ));
    }
}

proof fn lemma_turns(
    states: Seq<Registry>,
    origins: Seq<ConnectionID>,
    asks: Seq<RequestAsk>,
    results: Seq<Result<Action, BrokerError>>,
    p: Seq<char>,
    n: int,
)
    requires
        states.len() == asks.len() + 1,
        origins.len() == asks.len(),
        results.len() == asks.len(),
        states[0].handlers(p).len() > 0,
        states[0].turn(p) + asks.len() <= u32::MAX,
        forall|i: int| 0 <= i < asks.len() ==> (#[trigger] asks[i]).path@ == p,
        forall|i: int|
            0 <= i < asks.len() ==> routed(
                &states[i],
                &states[i + 1],
                origins[i],
                Message { payload: Payload::RequestAsk(#[trigger] asks[i]) },
                results[i],
            ),
        0 <= n <= asks.len(),
    ensures
        states[n].handlers(p) == states[0].handlers(p),
        states[n].turn(p) == states[0].turn(p) + n,
    decreases n,
{
    if n > 0 {
        lemma_turns(states, origins, asks, results, p, n - 1);
        let a = asks[n - 1];
        assert(routed(
            &states[n - 1],
            &states[n],
            origins[n - 1],
            Message { payload: Payload::RequestAsk(a) },
            results[n - 1],
        ));
        assert(a.path@ == p);
    }
}

} // verus!
