//! Requests, WebSockets, and the server to try them against.

use runtime::test_server::{
    accept_upgrade, base64, ends_head, find_header, next_frame, request_target as line_target, sha1,
    websocket_echo, Reply, TestServer,
};
use runtime::websocket::{
    binary_bytes, close_code, close_event, close_reason, element_size, event_args, failure_events, frame,
    installs_websocket, open_event, pump, Arg, ByteSource, Callbacks, Delivery, Event, Outgoing, Receiver, RunAction, RunEvent,
    SocketIds, SocketRun,
    BINARY_FRAGMENT, BINARY_MESSAGE, CLOSE, UTF8_FRAGMENT, UTF8_MESSAGE,
};
use runtime::winhttp::{
    exchange_error, handshake, header_text, protocol_header, request_target, target_from, Exchange, Get,
    GetAction, GetEvent, UrlParts,
};

fn strings(items: &[&str]) -> Vec<String> {
    items.iter().map(|s| s.to_string()).collect()
}

fn hex(bytes: &[u8]) -> String {
    bytes.iter().map(|b| format!("{b:02x}")).collect()
}

#[test]
fn requests_go_where_the_url_says() {
    let t = request_target("http://example.com/a/b?x=1&y=2#frag").ok().unwrap();
    assert!(!t.secure);
    assert_eq!((t.host.as_str(), t.port, t.object.as_str()), ("example.com", 80, "/a/b?x=1&y=2"));
    let t = request_target("wss://h:8443").ok().unwrap();
    assert!(t.secure);
    assert_eq!((t.host.as_str(), t.port, t.object.as_str()), ("h", 8443, "/"));
    let t = request_target("https://h/").ok().unwrap();
    assert_eq!(t.port, 443);
    assert_eq!(
        request_target("ftp://h/x").err().unwrap(),
        "unsupported URL scheme 'ftp' in ftp://h/x"
    );
    assert_eq!(
        request_target("nonsense").err().unwrap(),
        "invalid URL 'nonsense': relative URL without a base"
    );
}

#[test]
fn missing_parts_of_a_url_are_named_or_filled_in() {
    let parts = |host: Option<&str>, port: Option<u16>| UrlParts {
        scheme: "https".to_string(),
        host: host.map(|h| h.to_string()),
        port,
        path: "/p".to_string(),
        query: None,
    };
    assert_eq!(target_from("u", Ok(parts(None, None))).err().unwrap(), "URL has no host: u");
    let t = target_from("u", Ok(parts(Some("h"), None))).ok().unwrap();
    assert_eq!((t.port, t.object.as_str()), (443, "/p"));
    let mut plain = parts(Some("h"), None);
    plain.scheme = "ws".to_string();
    assert_eq!(target_from("u", Ok(plain)).ok().unwrap().port, 80);
    assert_eq!(target_from("u", Err("why".to_string())).err().unwrap(), "invalid URL 'u': why");
}

#[test]
fn a_body_is_what_the_reads_gave() {
    let mut get = Get::new();
    assert!(matches!(get.step(GetEvent::Sent(Ok(()))), GetAction::Receive));
    assert!(matches!(
        get.step(GetEvent::Received(Ok((200, "text/plain".to_string())))),
        GetAction::QueryAvailable
    ));
    assert!(matches!(get.step(GetEvent::Available(Ok(4))), GetAction::Read(4)));
    assert!(matches!(
        get.step(GetEvent::Read(Ok((vec![1, 2, 3, 0], 3)))),
        GetAction::QueryAvailable
    ));
    assert!(matches!(get.step(GetEvent::Available(Ok(2))), GetAction::Read(2)));
    get.step(GetEvent::Read(Ok((vec![4, 5], 2))));
    match get.step(GetEvent::Available(Ok(0))) {
        GetAction::Done(Ok(r)) => {
            assert_eq!(r.status, 200);
            assert_eq!(r.content_type, "text/plain");
            assert_eq!(r.body, vec![1, 2, 3, 4, 5]);
        }
        _ => panic!("expected a response"),
    }
}

#[test]
fn an_empty_read_ends_the_body() {
    let mut get = Get::new();
    get.step(GetEvent::Sent(Ok(())));
    get.step(GetEvent::Received(Ok((200, String::new()))));
    get.step(GetEvent::Available(Ok(3)));
    match get.step(GetEvent::Read(Ok((vec![0, 0, 0], 0)))) {
        GetAction::Done(Ok(r)) => assert!(r.body.is_empty()),
        _ => panic!("expected a response"),
    }
}

#[test]
fn each_failed_step_is_named() {
    let fail = |events: Vec<GetEvent>| {
        let mut get = Get::new();
        let mut last = None;
        for e in events {
            last = Some(get.step(e));
        }
        match last {
            Some(GetAction::Done(Err(e))) => e,
            _ => panic!("expected an error"),
        }
    };
    assert_eq!(fail(vec![GetEvent::Sent(Err("x".to_string()))]), "request failed: x");
    assert_eq!(
        fail(vec![GetEvent::Sent(Ok(())), GetEvent::Received(Err("x".to_string()))]),
        "no response: x"
    );
    let head = || vec![GetEvent::Sent(Ok(())), GetEvent::Received(Ok((200, String::new())))];
    let mut events = head();
    events.push(GetEvent::Available(Err("x".to_string())));
    assert_eq!(fail(events), "reading body failed: x");
    let mut events = head();
    events.push(GetEvent::Available(Ok(1)));
    events.push(GetEvent::Read(Err("y".to_string())));
    assert_eq!(fail(events), "reading body failed: y");
}

#[test]
fn headers_are_read_as_utf16() {
    let units: Vec<u16> = "text/html\u{20ac}".encode_utf16().chain([0, 0]).collect();
    assert_eq!(header_text(true, &units, 20), "text/html\u{20ac}");
    assert_eq!(header_text(true, &vec![0xd800, 0x41], 4), "\u{fffd}A");
    assert_eq!(header_text(true, &vec![0xdc00, 0xd83d, 0xde00, 0xd801], 8), "\u{fffd}\u{1f600}\u{fffd}");
    assert_eq!(header_text(true, &units, 9999).chars().count(), 12);
    assert_eq!(header_text(false, &units, 20), "");
}

#[test]
fn upgrades_offer_protocols_and_need_status_101() {
    assert_eq!(protocol_header(&vec![]), "");
    assert_eq!(protocol_header(&strings(&["a", "b"])), "Sec-WebSocket-Protocol: a, b\r\n");
    assert!(handshake(101).is_ok());
    assert_eq!(handshake(403).unwrap_err(), "WebSocket handshake failed: HTTP 403");
}

#[test]
fn fragments_make_one_message() {
    let mut r = Receiver::new();
    assert!(matches!(r.receive(UTF8_FRAGMENT, b"he".to_vec()), Delivery::Nothing));
    match r.receive(UTF8_MESSAGE, b"llo".to_vec()) {
        Delivery::Report(Event::Text(t)) => assert_eq!(t, "hello"),
        _ => panic!("expected a text"),
    }
    assert!(matches!(r.receive(BINARY_FRAGMENT, vec![1]), Delivery::Nothing));
    match r.receive(BINARY_MESSAGE, vec![2, 3]) {
        Delivery::Report(Event::Binary(b)) => assert_eq!(b, vec![1, 2, 3]),
        _ => panic!("expected bytes"),
    }
    match r.receive(UTF8_MESSAGE, vec![0xff]) {
        Delivery::Report(Event::Text(t)) => assert_eq!(t, "\u{fffd}"),
        _ => panic!("expected a text"),
    }
    assert!(matches!(r.receive(CLOSE, vec![]), Delivery::Closing));
}

#[test]
fn sockets_report_how_they_end() {
    let events = failure_events("refused".to_string());
    assert!(matches!(&events[0], Event::Error(m) if m == "refused"));
    assert!(matches!(&events[1], Event::Close { code: 1006, reason, clean: false } if reason.is_empty()));
    assert_eq!(events.len(), 2);
    assert!(matches!(open_event(&strings(&["p", "q"])), Event::Open(p) if p == "p"));
    assert!(matches!(open_event(&vec![]), Event::Open(p) if p.is_empty()));
    let reason = b"byexxxx".to_vec();
    assert!(matches!(close_event(1000, &reason, 3), Event::Close { code: 1000, reason, clean: true } if reason == "bye"));
}

#[test]
fn a_socket_opens_reports_and_closes_once() {
    let mut run = SocketRun::new(strings(&["p"]));
    let (events, action) = run.step(RunEvent::Connected(Ok(())));
    assert!(matches!(&events[..], [Event::Open(p)] if p == "p"));
    assert_eq!(action, RunAction::Receive);
    let (events, action) = run.step(RunEvent::Received(Ok((UTF8_FRAGMENT, b"he".to_vec()))));
    assert!(events.is_empty());
    assert_eq!(action, RunAction::Receive);
    let (events, action) = run.step(RunEvent::Received(Ok((UTF8_MESSAGE, b"y".to_vec()))));
    assert!(matches!(&events[..], [Event::Text(t)] if t == "hey"));
    assert_eq!(action, RunAction::Receive);
    let (events, action) = run.step(RunEvent::Received(Ok((CLOSE, vec![]))));
    assert!(events.is_empty());
    assert_eq!(action, RunAction::QueryClose);
    let (events, action) = run.step(RunEvent::CloseStatus(1000, b"bye...".to_vec(), 3));
    assert!(matches!(&events[..], [Event::Close { code: 1000, reason, clean: true }] if reason == "bye"));
    assert_eq!(action, RunAction::Done);
}

#[test]
fn a_socket_that_fails_closes_abnormally() {
    let mut refused = SocketRun::new(vec![]);
    let (events, action) = refused.step(RunEvent::Connected(Err("refused".to_string())));
    assert!(matches!(&events[..], [Event::Error(m), Event::Close { code: 1006, clean: false, .. }] if m == "refused"));
    assert_eq!(action, RunAction::Done);
    let mut broken = SocketRun::new(vec![]);
    broken.step(RunEvent::Connected(Ok(())));
    let (events, action) = broken.step(RunEvent::Received(Err("gone".to_string())));
    assert!(matches!(&events[..], [Event::Error(m), Event::Close { code: 1006, clean: false, .. }] if m == "gone"));
    assert_eq!(action, RunAction::Done);
}

#[test]
fn values_go_out_as_text_or_bytes() {
    assert_eq!(frame(Outgoing::Text("h\u{e9}".to_string())), ("h\u{e9}".as_bytes().to_vec(), UTF8_MESSAGE));
    assert_eq!(frame(Outgoing::Binary(vec![1, 2])), (vec![1, 2], BINARY_MESSAGE));
    assert_eq!((0..11).map(|k| element_size(k)).collect::<Vec<usize>>(), vec![1, 1, 1, 2, 2, 4, 4, 4, 8, 8, 8]);
    assert_eq!(binary_bytes(ByteSource::Buffer { addressed: true, length: 5 }), Some(5));
    assert_eq!(binary_bytes(ByteSource::Buffer { addressed: false, length: 5 }), Some(0));
    assert_eq!(binary_bytes(ByteSource::Array { addressed: true, kind: 6, length: 3 }), Some(12));
    assert_eq!(binary_bytes(ByteSource::Array { addressed: false, kind: 6, length: 3 }), Some(0));
    assert_eq!(binary_bytes(ByteSource::UnreadableBuffer), Some(0));
    assert_eq!(binary_bytes(ByteSource::UnreadableArray), Some(0));
    assert_eq!(binary_bytes(ByteSource::Neither), None);
}

#[test]
fn closes_have_a_code_and_a_short_reason() {
    assert_eq!(close_code(None), 1000);
    assert_eq!(close_code(Some(0)), 1000);
    assert_eq!(close_code(Some(3001)), 3001);
    assert_eq!(close_code(Some(0x1_0001)), 1);
    assert_eq!(close_reason("bye"), b"bye".to_vec());
    assert_eq!(close_reason(&"x".repeat(200)).len(), 123);
}

#[test]
fn events_reach_callbacks_as_arguments() {
    let args = event_args(Event::Close { code: 1000, reason: "r".to_string(), clean: true });
    assert!(matches!(&args[0], Arg::Text(t) if t == "close"));
    assert!(matches!(args[1], Arg::Number(1000)));
    assert!(matches!(&args[2], Arg::Text(t) if t == "r"));
    assert!(matches!(args[3], Arg::Truth(true)));
    let args = event_args(Event::Binary(vec![1]));
    assert!(matches!(&args[0], Arg::Text(t) if t == "message"));
    assert!(matches!(&args[1], Arg::Bytes(b) if *b == vec![1]));
    for (event, name) in [
        (Event::Open(String::new()), "open"),
        (Event::Text(String::new()), "message"),
        (Event::Error(String::new()), "error"),
    ] {
        let args = event_args(event);
        assert!(matches!(&args[0], Arg::Text(t) if t == name));
        assert_eq!(args.len(), 2);
    }
}

#[test]
fn a_close_is_the_last_call() {
    let mut ids = SocketIds::new();
    let (a, b) = (ids.allocate(), ids.allocate());
    assert_eq!((a, b), (1, 2));
    let mut callbacks = Callbacks::new();
    callbacks.insert(a, 70);
    let close = || Event::Close { code: 1000, reason: String::new(), clean: true };
    let calls = pump(
        &mut callbacks,
        vec![(a, Event::Text("1".to_string())), (b, Event::Text("lost".to_string())), (a, close()), (a, Event::Text("late".to_string()))],
    );
    assert_eq!(calls.len(), 2);
    assert!(calls.iter().all(|c| c.callback == 70));
    assert!(!calls[0].last && calls[1].last);
    assert_eq!(callbacks.get(a), None);
    callbacks.insert(b, 71);
    callbacks.insert(9, 72);
    let mut left = callbacks.clear_thread_sockets();
    left.sort();
    assert_eq!(left, vec![2, 9]);
    assert_eq!(callbacks.remove(9), None);
    let mut last = SocketIds { next: i32::MAX };
    last.allocate();
    assert_eq!(last.next, i32::MIN);
}

#[test]
fn a_callback_stays_pinned_through_its_close() {
    let mut callbacks = Callbacks::new();
    callbacks.insert(1, 70);
    let close = Event::Close { code: 1000, reason: String::new(), clean: true };
    assert!(callbacks.call_of(2, Event::Text("lost".to_string())).is_none());
    let call = callbacks.call_of(1, Event::Text("t".to_string())).unwrap();
    assert!(!call.last);
    callbacks.delivered(1, call.last);
    let call = callbacks.call_of(1, close).unwrap();
    assert!(call.last && call.callback == 70);
    assert_eq!(callbacks.get(1), Some(70));
    callbacks.delivered(1, call.last);
    assert_eq!(callbacks.get(1), None);
}

#[test]
fn sockets_are_installed_where_there_are_none() {
    assert!(installs_websocket(false, false));
    assert!(!installs_websocket(true, false) && !installs_websocket(false, true) && !installs_websocket(true, true));
}

#[test]
fn exchange_errors_name_the_step() {
    assert_eq!(exchange_error(Exchange::Send, "e"), "request failed: e");
    assert_eq!(exchange_error(Exchange::Receive, "e"), "no response: e");
}

#[test]
fn routes_answer_by_path() {
    let mut server = TestServer::new();
    server.route("/a.js", "text/javascript", "old");
    server.route("/a.js", "text/javascript", "h\u{e9}");
    let none: Vec<String> = vec![];
    match server.serve("GET /a.js?t=1 HTTP/1.1\r\n", &none) {
        Reply::Response(r) => assert_eq!(
            r,
            "HTTP/1.1 200 X\r\nContent-Type: text/javascript\r\nContent-Length: 3\r\nConnection: close\r\n\r\nh\u{e9}"
        ),
        _ => panic!("expected a response"),
    }
    match server.serve("GET /b.js HTTP/1.1", &none) {
        Reply::Response(r) => assert_eq!(
            r,
            "HTTP/1.1 404 X\r\nContent-Type: text/plain\r\nContent-Length: 9\r\nConnection: close\r\n\r\nnot found"
        ),
        _ => panic!("expected a response"),
    }
    server.serve("GET /a.js HTTP/1.1", &none);
    assert_eq!(server.requests_for("/a.js"), strings(&["/a.js?t=1", "/a.js"]));
    assert_eq!(server.requests_for("/c.js"), Vec::<String>::new());
}

#[test]
fn a_websocket_key_makes_an_upgrade() {
    let mut server = TestServer::new();
    let headers = strings(&["Host: h\r\n", "Sec-WebSocket-Key:  dGhlIHNhbXBsZSBub25jZQ== \r\n", "odd line"]);
    match server.serve("GET /ns-hmr HTTP/1.1", &headers) {
        Reply::Upgrade(key) => assert_eq!(key, "dGhlIHNhbXBsZSBub25jZQ=="),
        _ => panic!("expected an upgrade"),
    }
    assert!(server.requests_for("/ns-hmr").is_empty());
    assert_eq!(find_header(&headers, "host").as_deref(), Some("h"));
    assert_eq!(find_header(&strings(&["A: 1", "a: 2"]), "a").as_deref(), Some("2"));
    assert_eq!(find_header(&headers, "missing"), None);
    assert!(ends_head("\r\n") && ends_head("") && !ends_head("Host: h\r\n"));
    assert_eq!(line_target("  GET   /x  HTTP/1.1"), "/x");
    assert_eq!(line_target("GET"), "/");
    assert_eq!(line_target(""), "/");
    assert_eq!(
        accept_upgrade("dGhlIHNhbXBsZSBub25jZQ=="),
        "HTTP/1.1 101 Switching Protocols\r\nUpgrade: websocket\r\nConnection: Upgrade\r\nSec-WebSocket-Accept: s3pPLMBiTxaQ9kYGzzhZRbK+xOo=\r\n\r\n"
    );
}

#[test]
fn digests_of_known_messages() {
    let of = |s: &str| hex(&sha1(&s.as_bytes().to_vec()));
    assert_eq!(of(""), "da39a3ee5e6b4b0d3255bfef95601890afd80709");
    assert_eq!(of("abc"), "a9993e364706816aba3e25717850c26c9cd0d89d");
    assert_eq!(
        of("abcdbcdecdefdefgefghfghighijhijkijkljklmklmnlmnomnopnopq"),
        "84983e441c3bd26ebaae4aa1f95129e5e54670f1"
    );
    assert_eq!(of("The quick brown fox jumps over the lazy dog"), "2fd4e1c67a2d28fced849ee1bb76e7391b93eb12");
    assert_eq!(hex(&sha1(&vec![b'a'; 1000])), "291e9a6c66994949b57ba5e650361e98fc36b1ba");
}

#[test]
fn base64_of_known_bytes() {
    for (plain, text) in [
        ("", ""),
        ("f", "Zg=="),
        ("fo", "Zm8="),
        ("foo", "Zm9v"),
        ("foob", "Zm9vYg=="),
        ("fooba", "Zm9vYmE="),
        ("foobar", "Zm9vYmFy"),
    ] {
        assert_eq!(base64(&plain.as_bytes().to_vec()), text);
    }
    assert_eq!(base64(&vec![0xfb, 0xff, 0xfe]), "+//+");
}

fn masked(opcode: u8, payload: &[u8]) -> Vec<u8> {
    let mask = [1u8, 2, 3, 4];
    let mut out = vec![0x80 | opcode];
    if payload.len() < 126 {
        out.push(0x80 | payload.len() as u8);
    } else {
        out.push(0x80 | 126);
        out.extend_from_slice(&(payload.len() as u16).to_be_bytes());
    }
    out.extend_from_slice(&mask);
    out.extend(payload.iter().enumerate().map(|(i, b)| b ^ mask[i % 4]));
    out
}

#[test]
fn frames_are_echoed_until_a_close() {
    let mut stream = masked(1, b"hello");
    stream.extend(masked(2, &[9, 8]));
    stream.extend(masked(8, &[3, 0xe8]));
    stream.extend(masked(1, b"never"));
    let mut expected = vec![0x81, 10];
    expected.extend_from_slice(b"echo:hello");
    expected.extend_from_slice(&[0x82, 2, 9, 8, 0x88, 2, 3, 0xe8]);
    assert_eq!(websocket_echo(&stream), expected);
    // A frame that is not there in full is not answered.
    assert_eq!(websocket_echo(&stream[..10].to_vec()), Vec::<u8>::new());
}

#[test]
fn long_frames_have_a_length_of_two_bytes() {
    let payload = vec![7u8; 300];
    let stream = masked(2, &payload);
    let f = next_frame(&stream, 0).unwrap();
    assert_eq!((f.opcode, f.taken), (2, stream.len()));
    assert_eq!(f.payload, payload);
    let reply = websocket_echo(&stream);
    assert_eq!(&reply[..4], &[0x82, 126, 1, 44]);
    assert_eq!(&reply[4..], payload.as_slice());
    assert!(next_frame(&stream, stream.len()).is_none());
    assert!(next_frame(&stream[..3].to_vec(), 0).is_none());
}
