use mees::id::ConnectionID;
use mees::message::{Control, Message, Payload, RequestAsk, RequestRegister, RequestResponse};
use mees::registry::{Action, BrokerError, Registry};

fn c(n: u32) -> ConnectionID {
    ConnectionID(n)
}

fn register(path: &str) -> Message {
    Message::new(Payload::RequestRegister(RequestRegister { path: path.to_string() }))
}

fn ask(id: u32, path: &str, data: Vec<u8>) -> Message {
    Message::new(Payload::RequestAsk(RequestAsk { id, path: path.to_string(), data }))
}

fn respond(id: u32, data: Vec<u8>) -> Message {
    Message::new(Payload::RequestResponse(RequestResponse { id, data }))
}

fn disconnect() -> Message {
    Message::new(Payload::Control(Control::Disconnect))
}

fn sent(r: Result<Action, BrokerError>) -> (ConnectionID, Message) {
    match r {
        Ok(Action::Send(to, m)) => (to, m),
        other => panic!("expected a send, got {:?}", other),
    }
}

#[test]
fn subscribers_keep_insertion_order() {
    let mut reg = Registry::new();
    reg.request_subscribe("p".to_string(), c(1));
    reg.request_subscribe("p".to_string(), c(2));
    reg.request_subscribe("p".to_string(), c(3));
    reg.request_subscribe("p".to_string(), c(2));
    reg.request_unsubscribe("p", c(2));
    reg.request_subscribe("p".to_string(), c(4));
    assert_eq!(reg.request_subscribers("p"), vec![c(1), c(3), c(4)]);
    assert_eq!(reg.request_subscribers("q"), Vec::<ConnectionID>::new());
}

#[test]
fn event_subscriptions() {
    let mut reg = Registry::new();
    assert_eq!(reg.event_subscribe("e", c(5)), Ok(()));
    assert_eq!(reg.event_subscribe("e", c(6)), Ok(()));
    reg.event_unsubscribe("e", c(5));
    assert_eq!(reg.event_subscribers("e"), vec![c(6)]);
    reg.event_unsubscribe("nothing", c(6));
    assert_eq!(reg.event_subscribers("e"), vec![c(6)]);
    assert!(reg.is_active(c(6)));
    assert!(!reg.is_active(c(5)));
}

#[test]
fn repeated_register_appends() {
    let mut reg = Registry::new();
    assert_eq!(reg.handle_message(c(1), register("p")), Ok(Action::Done));
    assert_eq!(reg.handle_message(c(1), register("p")), Ok(Action::Done));
    assert_eq!(reg.request_subscribers("p"), vec![c(1), c(1)]);
}

#[test]
fn disconnect_unlists_everywhere() {
    let mut reg = Registry::new();
    reg.handle_message(c(1), register("a")).unwrap();
    reg.handle_message(c(2), register("a")).unwrap();
    reg.handle_message(c(1), register("b")).unwrap();
    reg.event_subscribe("e", c(1)).unwrap();
    assert!(reg.is_active(c(1)));
    assert_eq!(reg.handle_message(c(1), disconnect()), Ok(Action::Done));
    assert!(!reg.is_active(c(1)));
    assert_eq!(reg.request_subscribers("a"), vec![c(2)]);
    assert_eq!(reg.request_subscribers("b"), Vec::<ConnectionID>::new());
    assert_eq!(reg.event_subscribers("e"), Vec::<ConnectionID>::new());
}

#[test]
fn purge_is_idempotent() {
    let mut reg = Registry::new();
    reg.request_subscribe("a".to_string(), c(1));
    reg.request_subscribe("a".to_string(), c(2));
    reg.purge(c(1));
    let once = reg.request_subscribers("a");
    reg.purge(c(1));
    assert_eq!(reg.request_subscribers("a"), once);
    assert_eq!(once, vec![c(2)]);
}

#[test]
fn fan_in_round_robin() {
    let mut reg = Registry::new();
    reg.handle_message(c(10), register("P")).unwrap();
    reg.handle_message(c(11), register("P")).unwrap();
    let mut order = Vec::new();
    let mut counts = [0u32; 2];
    for i in 0..4u32 {
        let (to, m) = sent(reg.handle_message(c(1), ask(i, "P", vec![i as u8])));
        order.push(to);
        counts[(to.0 - 10) as usize] += 1;
        let Payload::RequestAsk(fwd) = m.payload else { panic!("not an ask") };
        let (back, resp) = sent(reg.handle_message(to, respond(fwd.id, vec![])));
        assert_eq!(back, c(1));
        let Payload::RequestResponse(r) = resp.payload else { panic!("not a response") };
        assert_eq!(r.id, i);
    }
    assert_eq!(order, vec![c(10), c(11), c(10), c(11)]);
    assert_eq!(counts, [2, 2]);
    assert_eq!(reg.pending_len(), 0);
}

#[test]
fn round_robin_fair_over_many_asks() {
    let mut reg = Registry::new();
    for h in 0..3u32 {
        reg.request_subscribe("p".to_string(), c(h));
    }
    let mut counts = [0u32; 3];
    for i in 0..100u32 {
        let (to, _) = sent(reg.handle_message(c(9), ask(i, "p", vec![])));
        counts[to.0 as usize] += 1;
    }
    assert_eq!(counts, [34, 33, 33]);
    assert_eq!(reg.pending_len(), 100);
}

#[test]
fn unknown_path_is_dropped() {
    let mut reg = Registry::new();
    reg.request_subscribe("Other".to_string(), c(2));
    assert_eq!(reg.handle_message(c(1), ask(7, "Nope", vec![1])), Ok(Action::Done));
    assert_eq!(reg.pending_len(), 0);
    assert_eq!(reg.request_subscribers("Nope"), Vec::<ConnectionID>::new());
    assert_eq!(reg.request_subscribers("Other"), vec![c(2)]);
}

#[test]
fn broker_ids_are_fresh_and_responses_remapped() {
    let mut reg = Registry::new();
    reg.request_subscribe("p".to_string(), c(2));
    let (_, m1) = sent(reg.handle_message(c(1), ask(5, "p", vec![1])));
    let (_, m2) = sent(reg.handle_message(c(3), ask(5, "p", vec![2])));
    let Payload::RequestAsk(a1) = m1.payload else { panic!() };
    let Payload::RequestAsk(a2) = m2.payload else { panic!() };
    assert_eq!(a1.id, 0);
    assert_eq!(a2.id, 1);
    assert_eq!(a1.data, vec![1]);
    assert_eq!(a1.path, "p");
    let (to, back) = sent(reg.handle_message(c(2), respond(a2.id, vec![9])));
    assert_eq!(to, c(3));
    assert_eq!(back, Message::new(Payload::RequestResponse(RequestResponse { id: 5, data: vec![9] })));
}

#[test]
fn stale_response_is_refused() {
    let mut reg = Registry::new();
    reg.request_subscribe("p".to_string(), c(2));
    let (_, m) = sent(reg.handle_message(c(1), ask(1, "p", vec![])));
    let Payload::RequestAsk(fwd) = m.payload else { panic!() };
    sent(reg.handle_message(c(2), respond(fwd.id, vec![4])));
    assert_eq!(
        reg.handle_message(c(2), respond(fwd.id, vec![4])),
        Err(BrokerError::StaleResponse(fwd.id))
    );
    assert_eq!(reg.handle_message(c(2), respond(77, vec![])), Err(BrokerError::StaleResponse(77)));
}

#[test]
fn other_controls_are_ignored() {
    let mut reg = Registry::new();
    reg.request_subscribe("p".to_string(), c(1));
    let ping = Message::new(Payload::Control(Control::Ping));
    assert_eq!(reg.handle_message(c(1), ping), Ok(Action::Done));
    assert_eq!(reg.request_subscribers("p"), vec![c(1)]);
}

#[test]
fn responder_disconnect_mid_flight_leaks_pending() {
    let mut reg = Registry::new();
    reg.request_subscribe("p".to_string(), c(2));
    let (to, _) = sent(reg.handle_message(c(1), ask(3, "p", vec![])));
    assert_eq!(to, c(2));
    reg.handle_message(c(2), disconnect()).unwrap();
    assert_eq!(reg.pending_len(), 1);
    assert_eq!(reg.handle_message(c(1), ask(4, "p", vec![])), Ok(Action::Done));
}
