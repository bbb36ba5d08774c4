use engine_io::config::{generate_id, Config};
use engine_io::packet::{decode_payload, Packet, ID};
use engine_io::server::{parse_query, Action, HttpRequest, Method, Server};
use engine_io::socket::{CloseReason, Socket};
use engine_io::transport::polling::Polling;
use engine_io::transport::Transport;

fn open_socket(sid: &str) -> Socket {
    // b64 forced: binary goes Base64 under text framing, not XHR2 frames
    Socket::new(sid.to_string(), true, None, 1000)
}

fn pair(n: &str, v: &str) -> (String, String) {
    (n.to_string(), v.to_string())
}

fn handshake_request() -> HttpRequest {
    HttpRequest {
        method: Method::Get,
        query: vec![pair("transport", "polling"), pair("b64", "1")],
        cookies: vec![],
        body: vec![],
    }
}

#[test]
fn socket_getters_follow_construction() {
    let s = Socket::new("abc".to_string(), true, Some(7), 42);
    assert_eq!(s.id(), "abc".to_string());
    assert!(s.b64());
    assert!(!s.xhr2());
    assert_eq!(s.jsonp_index(), Some(7));
    assert!(!s.closed());
    assert_eq!(s.get_last_pong(), 42);
    assert_eq!(s.get_last_ping(), 42);
}

#[test]
fn pong_timestamp_never_moves_backward() {
    let mut s = open_socket("abc");
    s.reset_timeout(5000);
    assert_eq!(s.get_last_pong(), 5000);
    s.reset_timeout(200);
    assert_eq!(s.get_last_pong(), 5000);
    s.reset_last_ping(7000);
    assert_eq!(s.get_last_ping(), 7000);
    s.reset_last_ping(100);
    assert_eq!(s.get_last_ping(), 7000);
}

#[test]
fn close_twice_fires_at_most_once() {
    let mut s = open_socket("abc");
    s.on_close(11);
    assert_eq!(s.close(CloseReason::ClientRequested), Some(11));
    assert!(s.closed());
    assert_eq!(s.close(CloseReason::ClientRequested), None);
    assert_eq!(s.close(CloseReason::PingTimeout), None);
}

#[test]
fn close_without_a_slot_fires_nothing() {
    let mut s = open_socket("abc");
    assert_eq!(s.close(CloseReason::ServerClosing), None);
    assert!(s.closed());
}

#[test]
fn emitted_packets_are_delivered_exactly_once() {
    let mut s = open_socket("abc");
    s.emit(Packet { id: ID::Message, data: b"one".to_vec() });
    s.emit(Packet { id: ID::Message, data: b"two".to_vec() });
    let first = s.encode_write_buffer();
    assert_eq!(first.packets.len(), 2);
    assert_eq!(first.packets[0].data, b"one".to_vec());
    assert_eq!(first.packets[1].data, b"two".to_vec());
    assert_eq!(first.payload.0, b"4:4one4:4two".to_vec());
    // the queue was emptied: a second poll hands out nothing
    let second = s.encode_write_buffer();
    assert_eq!(second.packets.len(), 0);
    assert_eq!(second.payload.0, b"".to_vec());
}

#[test]
fn send_queues_a_message_packet() {
    let mut s = open_socket("abc");
    s.send(b"hello".to_vec());
    let drain = s.encode_write_buffer();
    assert_eq!(drain.packets.len(), 1);
    assert_eq!(drain.packets[0].id, ID::Message);
    assert_eq!(drain.packets[0].data, b"hello".to_vec());
}

#[test]
fn emit_on_a_closed_socket_is_discarded() {
    let mut s = open_socket("abc");
    s.close(CloseReason::ServerClosing);
    s.emit(Packet { id: ID::Message, data: b"late".to_vec() });
    let drain = s.encode_write_buffer();
    assert_eq!(drain.packets.len(), 0);
}

#[test]
fn flush_slot_is_handed_back_only_while_open() {
    let mut s = open_socket("abc");
    s.on_flush(3);
    s.on_message(4);
    s.on_packet(5);
    assert_eq!(s.call_on_flush(), Some(3));
    assert_eq!(s.call_on_message(), Some(4));
    assert_eq!(s.call_on_packet(), Some(5));
    s.emit(Packet { id: ID::Noop, data: vec![] });
    let drain = s.encode_write_buffer();
    assert_eq!(drain.on_flush, Some(3));
    s.close(CloseReason::ServerClosing);
    assert_eq!(s.call_on_flush(), None);
    assert_eq!(s.call_on_message(), None);
    assert_eq!(s.call_on_packet(), None);
}

#[test]
fn reregistering_a_callback_replaces_it() {
    let mut s = open_socket("abc");
    s.on_message(1);
    s.on_message(2);
    assert_eq!(s.call_on_message(), Some(2));
}

#[test]
fn close_reasons_read_as_the_protocol_strings() {
    assert_eq!(CloseReason::ClientRequested.text(), "close requested by client");
    assert_eq!(CloseReason::PingTimeout.text(), "ping timeout");
    assert_eq!(CloseReason::ServerClosing.text(), "closing server");
}

#[test]
fn default_config() {
    let c = Config::default();
    assert_eq!(c.ping_timeout, 60000);
    assert_eq!(c.ping_interval, 25000);
    assert_eq!(c.cookie, Some("io".to_string()));
    assert_eq!(c.cookie_path, None);
}

#[test]
fn generated_ids_are_hex_digests() {
    let a = generate_id("127.0.0.1:4000");
    let b = generate_id("127.0.0.1:4000");
    assert_eq!(a.len(), 64);
    assert_eq!(b.len(), 64);
    assert!(a.chars().all(|c| c.is_ascii_hexdigit()));
    // 32 random bits make a repeat vanishingly unlikely
    assert_ne!(a, b);
}

#[test]
fn parse_query_decodes_pairs() {
    let pairs = parse_query(b"transport=polling&d=a%20b&j=2");
    assert_eq!(pairs.len(), 3);
    assert_eq!(pairs[0], pair("transport", "polling"));
    assert_eq!(pairs[1], pair("d", "a b"));
    assert_eq!(pairs[2], pair("j", "2"));
}

#[test]
fn handshake_registers_a_session_and_sets_the_cookie() {
    let mut server = Server::new();
    server.on_connection(99);
    let sid = generate_id("client");
    let (resp, actions) = server.handle(&handshake_request(), sid.clone(), 1000);
    assert_eq!(resp.status, 200);
    assert!(resp.keep_alive);
    assert_eq!(resp.set_cookie, Some(("io".to_string(), sid.clone())));
    let body = String::from_utf8(resp.body).unwrap();
    // one Open packet whose JSON names the sid and the heartbeat timing
    let colon = body.find(':').unwrap();
    assert_eq!(body.as_bytes()[colon + 1], b'0');
    assert!(body.contains(&format!("{{\"sid\":\"{}\"", sid)));
    assert!(body.contains("\"upgrades\":[]"));
    assert!(body.contains("\"pingInterval\":25000"));
    assert!(body.contains("\"pingTimeout\":60000"));
    assert_eq!(actions.len(), 1);
    match &actions[0] {
        Action::Connection { handler, sid: s } => {
            assert_eq!(*handler, 99);
            assert_eq!(*s, sid);
        },
        _ => panic!("expected a connection action"),
    }
}

#[test]
fn handshake_without_a_transport_is_refused() {
    let mut server = Server::new();
    let req = HttpRequest { method: Method::Get, query: vec![], cookies: vec![], body: vec![] };
    let (resp, actions) = server.handle(&req, "fresh".to_string(), 0);
    assert_eq!(resp.status, 400);
    assert_eq!(resp.body, b"{\"code\":0,\"message\":\"Transport unknown\"}".to_vec());
    assert!(actions.is_empty());
}

#[test]
fn handshake_with_a_bad_jsonp_index_is_refused() {
    let mut server = Server::new();
    let req = HttpRequest {
        method: Method::Get,
        query: vec![pair("transport", "polling"), pair("j", "-3")],
        cookies: vec![],
        body: vec![],
    };
    let (resp, actions) = server.handle(&req, "fresh".to_string(), 0);
    assert_eq!(resp.status, 400);
    assert!(actions.is_empty());
}

#[test]
fn colliding_fresh_sids_never_make_two_sessions() {
    let mut server = Server::new();
    let (first, _) = server.handle(&handshake_request(), "same".to_string(), 0);
    assert_eq!(first.status, 200);
    let (second, actions) = server.handle(&handshake_request(), "same".to_string(), 0);
    assert_eq!(second.status, 500);
    assert!(actions.is_empty());
    // the one session is still there, alone
    assert!(server.find_socket(&"same".to_string()).is_some());
    assert_eq!(server.clients.len(), 1);
}

#[test]
fn unknown_sid_is_refused() {
    let mut server = Server::new();
    let req = HttpRequest {
        method: Method::Get,
        query: vec![pair("transport", "polling"), pair("sid", "nobody")],
        cookies: vec![],
        body: vec![],
    };
    let (resp, _) = server.handle(&req, "fresh".to_string(), 0);
    assert_eq!(resp.status, 400);
    assert_eq!(resp.body, b"{\"code\":1,\"message\":\"Session ID unknown\"}".to_vec());
}

#[test]
fn other_methods_are_refused() {
    let mut server = Server::new();
    server.handle(&handshake_request(), "s1".to_string(), 0);
    let req = HttpRequest {
        method: Method::Other,
        query: vec![pair("sid", "s1")],
        cookies: vec![],
        body: vec![],
    };
    let (resp, _) = server.handle(&req, "fresh".to_string(), 0);
    assert_eq!(resp.status, 405);
}

#[test]
fn get_drains_queued_packets() {
    let mut server = Server::new();
    server.handle(&handshake_request(), "s1".to_string(), 0);
    let i = server.find_socket(&"s1".to_string()).unwrap();
    server.clients[i].on_flush(8);
    server.clients[i].emit(Packet { id: ID::Message, data: b"hi".to_vec() });
    let req = HttpRequest {
        method: Method::Get,
        query: vec![pair("sid", "s1")],
        cookies: vec![],
        body: vec![],
    };
    let (resp, actions) = server.handle(&req, "fresh".to_string(), 50);
    assert_eq!(resp.status, 200);
    assert_eq!(resp.body, b"3:4hi".to_vec());
    assert_eq!(actions.len(), 1);
    match &actions[0] {
        Action::Flush { handler, packets } => {
            assert_eq!(*handler, 8);
            assert_eq!(packets.len(), 1);
            assert_eq!(packets[0].data, b"hi".to_vec());
        },
        _ => panic!("expected a flush action"),
    }
    // liveness was refreshed
    assert_eq!(server.clients[i].get_last_pong(), 50);
}

#[test]
fn the_io_cookie_is_a_fallback_key() {
    let mut server = Server::new();
    server.handle(&handshake_request(), "s1".to_string(), 0);
    server.clients[0].emit(Packet { id: ID::Message, data: b"x".to_vec() });
    let req = HttpRequest {
        method: Method::Get,
        query: vec![],
        cookies: vec![pair("io", "s1")],
        body: vec![],
    };
    let (resp, _) = server.handle(&req, "fresh".to_string(), 0);
    assert_eq!(resp.status, 200);
    assert_eq!(resp.body, b"2:4x".to_vec());
}

#[test]
fn post_delivers_messages_in_order() {
    let mut server = Server::new();
    server.handle(&handshake_request(), "s1".to_string(), 0);
    let i = server.find_socket(&"s1".to_string()).unwrap();
    server.clients[i].on_message(21);
    let req = HttpRequest {
        method: Method::Post,
        query: vec![pair("sid", "s1")],
        cookies: vec![],
        body: b"d=3:4ab3:4cd".to_vec(),
    };
    let (resp, actions) = server.handle(&req, "fresh".to_string(), 0);
    assert_eq!(resp.status, 200);
    assert_eq!(resp.body, b"ok".to_vec());
    assert!(resp.keep_alive);
    assert_eq!(actions.len(), 2);
    match (&actions[0], &actions[1]) {
        (
            Action::Message { handler: h1, data: d1 },
            Action::Message { handler: h2, data: d2 },
        ) => {
            assert_eq!((*h1, *h2), (21, 21));
            assert_eq!(d1, &b"ab".to_vec());
            assert_eq!(d2, &b"cd".to_vec());
        },
        _ => panic!("expected two message actions"),
    }
}

#[test]
fn post_close_fires_on_close_and_evicts_the_session() {
    let mut server = Server::new();
    server.handle(&handshake_request(), "s1".to_string(), 0);
    let i = server.find_socket(&"s1".to_string()).unwrap();
    server.clients[i].on_close(31);
    let req = HttpRequest {
        method: Method::Post,
        query: vec![pair("sid", "s1")],
        cookies: vec![],
        body: b"d=1:1".to_vec(),
    };
    let (resp, actions) = server.handle(&req, "fresh".to_string(), 0);
    assert_eq!(resp.status, 200);
    assert!(!resp.keep_alive);
    assert_eq!(actions.len(), 1);
    match &actions[0] {
        Action::Close { handler, reason } => {
            assert_eq!(*handler, 31);
            assert_eq!(*reason, CloseReason::ClientRequested);
        },
        _ => panic!("expected a close action"),
    }
    // a later GET no longer knows the session
    let get = HttpRequest {
        method: Method::Get,
        query: vec![pair("sid", "s1")],
        cookies: vec![],
        body: vec![],
    };
    let (resp, _) = server.handle(&get, "fresh".to_string(), 0);
    assert_eq!(resp.status, 400);
    assert_eq!(resp.body, b"{\"code\":1,\"message\":\"Session ID unknown\"}".to_vec());
}

#[test]
fn post_pong_refreshes_liveness_and_probe_ping_is_answered() {
    let mut server = Server::new();
    server.handle(&handshake_request(), "s1".to_string(), 0);
    let i = server.find_socket(&"s1".to_string()).unwrap();
    let req = HttpRequest {
        method: Method::Post,
        query: vec![pair("sid", "s1")],
        cookies: vec![],
        body: b"d=5:3ping6:2probe".to_vec(),
    };
    let (resp, _) = server.handle(&req, "fresh".to_string(), 777);
    assert_eq!(resp.status, 200);
    assert_eq!(server.clients[i].get_last_pong(), 777);
    // the probe was answered with a probe pong on the queue
    let drain = server.clients[i].encode_write_buffer();
    assert_eq!(drain.packets.len(), 1);
    assert_eq!(drain.packets[0].id, ID::Pong);
    assert_eq!(drain.packets[0].data, b"probe".to_vec());
}

#[test]
fn post_that_does_not_decode_is_a_bad_request() {
    let mut server = Server::new();
    server.handle(&handshake_request(), "s1".to_string(), 0);
    let req = HttpRequest {
        method: Method::Post,
        query: vec![pair("sid", "s1")],
        cookies: vec![],
        body: b"d=zz:zz".to_vec(),
    };
    let (resp, actions) = server.handle(&req, "fresh".to_string(), 0);
    assert_eq!(resp.status, 400);
    assert!(actions.is_empty());
    // the session survives: the client may retry
    assert!(server.find_socket(&"s1".to_string()).is_some());
}

#[test]
fn post_restores_escaped_newlines() {
    let mut server = Server::new();
    server.handle(&handshake_request(), "s1".to_string(), 0);
    let i = server.find_socket(&"s1".to_string()).unwrap();
    server.clients[i].on_message(5);
    // the d field carries "\\n"; the payload length counts the restored "\n"
    let req = HttpRequest {
        method: Method::Post,
        query: vec![pair("sid", "s1")],
        cookies: vec![],
        body: b"d=4:4a%5Cnb".to_vec(),
    };
    let (resp, actions) = server.handle(&req, "fresh".to_string(), 0);
    assert_eq!(resp.status, 200);
    assert_eq!(actions.len(), 1);
    match &actions[0] {
        Action::Message { data, .. } => assert_eq!(data, &b"a\nb".to_vec()),
        _ => panic!("expected a message action"),
    }
}

#[test]
fn heartbeat_pings_the_idle_and_evicts_the_silent() {
    let mut server = Server::with_config(Config {
        ping_timeout: 6000,
        ping_interval: 2500,
        cookie: Some("io".to_string()),
        cookie_path: None,
    });
    server.handle(&handshake_request(), "quiet".to_string(), 0);
    server.handle(&handshake_request(), "lively".to_string(), 0);
    let lively = server.find_socket(&"lively".to_string()).unwrap();
    server.clients[lively].on_close(77);
    server.clients[lively].reset_timeout(5000);
    let quiet = server.find_socket(&"quiet".to_string()).unwrap();
    server.clients[quiet].on_close(66);

    let actions = server.heartbeat_pass(7000);
    // "quiet" was last heard at 0, more than 6000 ago: evicted, once
    assert!(server.find_socket(&"quiet".to_string()).is_none());
    assert_eq!(actions.len(), 1);
    match &actions[0] {
        Action::Close { handler, reason } => {
            assert_eq!(*handler, 66);
            assert_eq!(*reason, CloseReason::PingTimeout);
        },
        _ => panic!("expected a close action"),
    }
    // "lively" was pinged: its queue holds one ping packet
    let i = server.find_socket(&"lively".to_string()).unwrap();
    assert_eq!(server.clients[i].get_last_ping(), 7000);
    let drain = server.clients[i].encode_write_buffer();
    assert_eq!(drain.packets.len(), 1);
    assert_eq!(drain.packets[0].id, ID::Ping);
    assert_eq!(drain.packets[0].data, b"ping".to_vec());
    // a second pass finds nothing more to evict or ping
    let more = server.heartbeat_pass(7000);
    assert!(more.is_empty());
    assert!(server.find_socket(&"lively".to_string()).is_some());
}

#[test]
fn closing_the_server_fires_each_close_once_and_empties_the_registry() {
    let mut server = Server::new();
    server.handle(&handshake_request(), "a".to_string(), 0);
    server.handle(&handshake_request(), "b".to_string(), 0);
    let i = server.find_socket(&"a".to_string()).unwrap();
    server.clients[i].on_close(1);
    let actions = server.close();
    assert_eq!(server.clients.len(), 0);
    assert_eq!(actions.len(), 1);
    match &actions[0] {
        Action::Close { handler, reason } => {
            assert_eq!(*handler, 1);
            assert_eq!(*reason, CloseReason::ServerClosing);
        },
        _ => panic!("expected a close action"),
    }
}

#[test]
fn jsonp_handshake_answers_javascript() {
    let mut server = Server::new();
    let req = HttpRequest {
        method: Method::Get,
        query: vec![pair("transport", "polling"), pair("j", "2"), pair("b64", "1")],
        cookies: vec![],
        body: vec![],
    };
    let (resp, _) = server.handle(&req, "s1".to_string(), 0);
    assert_eq!(resp.status, 200);
    let body = String::from_utf8(resp.body).unwrap();
    assert!(body.starts_with("___eio[2](\""));
    assert!(body.ends_with("\");"));
}

#[test]
fn polling_transport_round_trip() {
    let mut t = Polling::new(None, false, false);
    assert_eq!(t.name(), "polling");
    t.send(Packet { id: ID::Message, data: b"out".to_vec() });
    let payload = t.on_get();
    assert_eq!(payload.0, b"4:4out".to_vec());
    assert_eq!(t.on_get().0, b"".to_vec());

    t.on_post(b"3:4in".to_vec()).unwrap();
    t.on_post(b"4:4two".to_vec()).unwrap();
    let first = t.receive().unwrap();
    assert_eq!(first.data, b"in".to_vec());
    let rest = t.receive_all();
    assert_eq!(rest.len(), 1);
    assert_eq!(rest[0].data, b"two".to_vec());
    assert!(t.receive().is_none());

    assert!(t.on_post(b"9:4short".to_vec()).is_err());
    t.send(Packet { id: ID::Message, data: b"gone".to_vec() });
    t.close();
    assert_eq!(t.on_get().0, b"".to_vec());
}

#[test]
fn decode_payload_matches_what_the_transport_took() {
    let packets = decode_payload(b"3:4in".to_vec(), false, false).unwrap();
    assert_eq!(packets.len(), 1);
    assert_eq!(packets[0].id, ID::Message);
}
