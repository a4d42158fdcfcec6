use mees::client::{ask_message, disconnect_message, next_backoff, PendingTable, INITIAL_BACKOFF_MS};
use mees::connections::{ack, keep_retrying, Connections};
use mees::frame::{
    check_version, decode_frame, decode_u32, encode_frame, encode_u32, expect_ack, expect_connect,
    FrameRead, SessionError, VERSION,
};
use mees::id::ConnectionID;
use mees::message::{Connect, ConnectAck, Control, Message, Payload, RequestRegister, RequestResponse};
use mees::registry::{Action, Registry};
use mees::responder::{response_message, Handler, Responder};

type Func = fn(&[u8]) -> Vec<u8>;

fn add_bytes(data: &[u8]) -> Vec<u8> {
    vec![data[0] + data[1]]
}

fn greet(_: &[u8]) -> Vec<u8> {
    b"world".to_vec()
}

#[test]
fn u32_is_big_endian() {
    assert_eq!(encode_u32(0x01020304), vec![1, 2, 3, 4]);
    assert_eq!(decode_u32(&[0, 0, 1, 0]), 256);
    assert_eq!(decode_u32(&encode_u32(4_000_000_000)), 4_000_000_000);
}

#[test]
fn frame_round_trip() {
    let payload = vec![9u8, 8, 7];
    let mut wire = encode_frame(&payload);
    assert_eq!(wire, vec![0, 0, 0, 3, 9, 8, 7]);
    wire.extend_from_slice(&[1, 2]);
    assert_eq!(decode_frame(&wire), FrameRead::Frame(payload, 7));
}

#[test]
fn frame_edges() {
    assert_eq!(decode_frame(&[0, 0]), FrameRead::Incomplete);
    assert_eq!(decode_frame(&[0, 0, 0, 0, 5]), FrameRead::Closed);
    assert_eq!(decode_frame(&[0, 0, 0, 4, 1, 2]), FrameRead::Incomplete);
    assert_eq!(encode_frame(&[]), vec![0, 0, 0, 0]);
}

#[test]
fn version_handshake() {
    assert_eq!(VERSION, 1);
    assert_eq!(check_version(1), Ok(()));
    assert_eq!(check_version(2), Err(SessionError::VersionMismatch(2)));
}

#[test]
fn identity_messages() {
    let new = Connect::New.into_message();
    assert_eq!(expect_connect(&new), Ok(Connect::New));
    let resume = Connect::Existing(7).into_message();
    assert_eq!(expect_connect(&resume), Ok(Connect::Existing(7)));
    assert_eq!(expect_connect(&disconnect_message()), Err(SessionError::MalformedFrame));
    let a = ack(ConnectionID(7));
    assert_eq!(a.payload, Payload::Control(Control::ConnectAck(ConnectAck(7))));
    assert_eq!(expect_ack(&a), Ok(7));
    assert_eq!(expect_ack(&new), Err(SessionError::MalformedFrame));
}

#[test]
fn connections_allocate_and_resume() {
    let mut conns: Connections<&str> = Connections::new();
    let a = conns.connect(Connect::New, "first").unwrap();
    let b = conns.connect(Connect::New, "second").unwrap();
    assert_eq!(a, ConnectionID(0));
    assert_eq!(b, ConnectionID(1));
    assert_eq!(conns.connect(Connect::Existing(a.0), "fresh stream"), Ok(a));
    assert_eq!(conns.get(a), Some(&"fresh stream"));
    assert_eq!(conns.get(b), Some(&"second"));
    assert_eq!(conns.connect(Connect::Existing(42), "x"), Err(SessionError::UnknownConnection(42)));
    assert_eq!(conns.remove(a), Some("fresh stream"));
    assert_eq!(conns.get(a), None);
    assert_eq!(conns.len(), 1);
    let c = conns.connect(Connect::New, "third").unwrap();
    assert_eq!(c, ConnectionID(2));
}

#[test]
fn retry_bridge_gives_up() {
    assert!(keep_retrying(0));
    assert!(keep_retrying(100));
    assert!(!keep_retrying(101));
}

#[test]
fn backoff_doubles_only_on_failed_reconnect() {
    assert_eq!(INITIAL_BACKOFF_MS, 2);
    assert_eq!(next_backoff(2, true), 4);
    assert_eq!(next_backoff(2, false), 2);
    assert_eq!(next_backoff(u64::MAX, true), u64::MAX);
}

#[test]
fn pending_table_ids_and_delivery() {
    let mut table: PendingTable<u32> = PendingTable::new();
    assert_eq!(table.insert(100), 0);
    assert_eq!(table.insert(101), 1);
    let resp = Message::new(Payload::RequestResponse(RequestResponse { id: 1, data: vec![3] }));
    assert_eq!(table.deliver(resp), Some((101, RequestResponse { id: 1, data: vec![3] })));
    let again = Message::new(Payload::RequestResponse(RequestResponse { id: 1, data: vec![3] }));
    assert_eq!(table.deliver(again), None);
    assert_eq!(table.deliver(disconnect_message()), None);
    assert_eq!(table.len(), 1);
}

#[test]
fn test_parse() {
    let mut responder: Responder<Func> = Responder::new();
    responder.register("Foo-1-2".to_string(), Handler::new(greet as Func));
    responder.register("Add-3-4".to_string(), Handler::new(add_bytes as Func));
    let msg = ask_message(0, "Add-3-4".to_string(), vec![1, 2]);
    let (f, request) = responder.handle(msg).expect("a handler");
    assert_eq!(f(&request.data), vec![3]);
    let msg = ask_message(0, "Foo-1-2".to_string(), vec![]);
    let (f, request) = responder.handle(msg).expect("a handler");
    assert_eq!(f(&request.data), b"world".to_vec());
    assert!(responder.handle(ask_message(0, "Nope".to_string(), vec![])).is_none());
    let regs = responder.registrations();
    assert_eq!(regs.len(), 2);
    assert_eq!(
        regs[0].payload,
        Payload::RequestRegister(RequestRegister { path: "Foo-1-2".to_string() })
    );
}

#[test]
fn handler_consume_returns_function() {
    let h = Handler::new(add_bytes as Func);
    let f = h.consume();
    assert_eq!(f(&[2, 5]), vec![7]);
}

/// One ask through the whole path: client table, broker registry, responder
/// table, and back.
fn round_trip(
    reg: &mut Registry,
    table: &mut PendingTable<u32>,
    responder: &Responder<Func>,
    client: ConnectionID,
    waiter: u32,
    path: &str,
    data: Vec<u8>,
) -> Option<(u32, RequestResponse)> {
    let id = table.insert(waiter);
    let Ok(Action::Send(to, fwd)) = reg.handle_message(client, ask_message(id, path.to_string(), data)) else {
        return None;
    };
    let (f, request) = responder.handle(fwd)?;
    let reply = response_message(request.id, f(&request.data));
    let Ok(Action::Send(back, m)) = reg.handle_message(to, reply) else {
        return None;
    };
    assert_eq!(back, client);
    table.deliver(m)
}

#[test]
fn add() {
    let mut reg = Registry::new();
    let mut responder: Responder<Func> = Responder::new();
    responder.register("Add-500-6454".to_string(), Handler::new(add_bytes as Func));
    for m in responder.registrations() {
        reg.handle_message(ConnectionID(1), m).unwrap();
    }
    let mut table: PendingTable<u32> = PendingTable::new();
    let got = round_trip(&mut reg, &mut table, &responder, ConnectionID(2), 99, "Add-500-6454", vec![1, 2]);
    assert_eq!(got, Some((99, RequestResponse { id: 0, data: vec![3] })));
    assert_eq!(table.len(), 0);
    assert_eq!(reg.pending_len(), 0);
}

#[test]
fn resume_keeps_pending_ask() {
    let mut reg = Registry::new();
    let mut conns: Connections<&str> = Connections::new();
    let client = conns.connect(Connect::New, "old stream").unwrap();
    let resp = conns.connect(Connect::New, "responder").unwrap();
    reg.request_subscribe("p".to_string(), resp);
    let mut table: PendingTable<&str> = PendingTable::new();
    let local = table.insert("waiter A1");
    let Ok(Action::Send(_, fwd)) = reg.handle_message(client, ask_message(local, "p".to_string(), vec![5])) else {
        panic!("not routed");
    };
    // the transport drops; the client comes back under its identity
    assert_eq!(conns.connect(Connect::Existing(client.0), "new stream"), Ok(client));
    let Payload::RequestAsk(a1) = fwd.payload else { panic!() };
    let Ok(Action::Send(to, back)) = reg.handle_message(resp, response_message(a1.id, vec![6])) else {
        panic!("not returned");
    };
    assert_eq!(conns.get(to), Some(&"new stream"));
    assert_eq!(table.deliver(back), Some(("waiter A1", RequestResponse { id: local, data: vec![6] })));
}

#[test]
fn thousand_concurrent_asks() {
    let mut reg = Registry::new();
    reg.request_subscribe("echo".to_string(), ConnectionID(1));
    reg.request_subscribe("echo".to_string(), ConnectionID(2));
    let mut table: PendingTable<u32> = PendingTable::new();
    let mut forwarded = Vec::new();
    for i in 0..1000u32 {
        let id = table.insert(i);
        let data = i.to_be_bytes().to_vec();
        match reg.handle_message(ConnectionID(7), ask_message(id, "echo".to_string(), data)) {
            Ok(Action::Send(to, m)) => forwarded.push((to, m)),
            other => panic!("{:?}", other),
        }
    }
    assert_eq!(table.len(), 1000);
    // responses come back in another order
    forwarded.reverse();
    for (to, m) in forwarded {
        let Payload::RequestAsk(a) = m.payload else { panic!() };
        let Ok(Action::Send(back, reply)) = reg.handle_message(to, response_message(a.id, a.data)) else {
            panic!("lost");
        };
        assert_eq!(back, ConnectionID(7));
        let (waiter, r) = table.deliver(reply).expect("a waiter");
        assert_eq!(r.data, waiter.to_be_bytes().to_vec());
    }
    assert_eq!(table.len(), 0);
    assert_eq!(reg.pending_len(), 0);
}
