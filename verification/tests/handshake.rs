use connect_proxy::handshake::{handle_client, Action, Event, Handshake, HandshakeError};
use connect_proxy::line_reader::{HttpReader, LineError};
use connect_proxy::request::Target;

fn line(text: &str) -> Event {
    Event::Line(text.to_string())
}

fn bad_request() -> String {
    "HTTP/1.1 400 Connection Established\r\n\r\nBad Request".to_string()
}

/// Feeds the lines to a handshake and returns the last state and all actions.
fn run(lines: &[&str]) -> (Handshake, Vec<Action>) {
    let mut state = Handshake::ExpectRequestLine;
    let mut actions = Vec::new();
    for text in lines {
        let (next, action) = handle_client(state, line(text));
        state = next;
        actions.push(action);
    }
    (state, actions)
}

#[test]
fn connect_with_headers_ends_in_a_tunnel() {
    let (state, actions) =
        run(&["CONNECT example.org:8443 HTTP/1.1", "Host: example.org", "User-Agent: t", ""]);
    assert_eq!(state, Handshake::Tunneling);
    assert_eq!(
        actions,
        vec![
            Action::ReadLine,
            Action::ReadLine,
            Action::ReadLine,
            Action::Tunnel(
                Target { host: "example.org".to_string(), port: 8443 },
                "HTTP/1.1 200 Connection Established\r\n\r\n".to_string()
            ),
        ]
    );
}

#[test]
fn connect_without_headers_or_port() {
    let (state, actions) = run(&["CONNECT example.org HTTP/1.1", ""]);
    assert_eq!(state, Handshake::Tunneling);
    assert_eq!(
        actions[1],
        Action::Tunnel(
            Target { host: "example.org".to_string(), port: 443 },
            "HTTP/1.1 200 Connection Established\r\n\r\n".to_string()
        )
    );
}

#[test]
fn other_method_gets_405() {
    let (state, action) = handle_client(Handshake::ExpectRequestLine, line("GET / HTTP/1.1"));
    assert_eq!(state, Handshake::Rejected);
    assert_eq!(
        action,
        Action::Reject(
            "HTTP/1.1 405 Connection Established\r\n\r\nMethod Not Allowed".to_string()
        )
    );
}

#[test]
fn malformed_request_line_gets_400() {
    for text in ["", "CONNECT example.org:443", "CONNECT a b HTTP/1.1", "CONNECT a:1 HTTP/1.0", "GET /"] {
        let (state, action) = handle_client(Handshake::ExpectRequestLine, line(text));
        assert_eq!(state, Handshake::Rejected, "{:?}", text);
        assert_eq!(action, Action::Reject(bad_request()), "{:?}", text);
    }
}

#[test]
fn failed_first_read_gets_400_and_the_failure() {
    let (state, action) = handle_client(Handshake::ExpectRequestLine, Event::Failed);
    assert_eq!(state, Handshake::Rejected);
    assert_eq!(action, Action::RejectFailure(bad_request()));
}

#[test]
fn failed_read_among_the_headers_gets_no_response() {
    let (state, _) = handle_client(Handshake::ExpectRequestLine, line("CONNECT a:1 HTTP/1.1"));
    assert_eq!(state, Handshake::ExpectHeaders("a:1".to_string()));
    let (state, action) = handle_client(state, Event::Failed);
    assert_eq!(state, Handshake::Rejected);
    assert_eq!(action, Action::Abort(HandshakeError::ReadFailed));
}

#[test]
fn invalid_port_is_found_after_the_headers() {
    let (state, actions) = run(&["CONNECT example.org:https HTTP/1.1", "Host: x", ""]);
    assert_eq!(state, Handshake::Rejected);
    assert_eq!(
        actions,
        vec![Action::ReadLine, Action::ReadLine, Action::Abort(HandshakeError::InvalidPort)]
    );
}

#[test]
fn nothing_follows_the_end() {
    let (state, action) = handle_client(Handshake::Rejected, line("CONNECT a:1 HTTP/1.1"));
    assert_eq!((state, action), (Handshake::Rejected, Action::Nothing));
    let (state, action) = handle_client(Handshake::Rejected, line(""));
    assert_eq!((state, action), (Handshake::Rejected, Action::Nothing));
    let (state, action) = handle_client(Handshake::Tunneling, line(""));
    assert_eq!((state, action), (Handshake::Tunneling, Action::Nothing));
    let (state, action) = handle_client(Handshake::Tunneling, Event::Failed);
    assert_eq!((state, action), (Handshake::Tunneling, Action::Nothing));
}

#[test]
fn handshake_from_raw_bytes() {
    let mut reader = HttpReader::new();
    let wire = b"CONNECT db.internal:5432 HTTP/1.1\r\nProxy-Connection: keep-alive\r\n\r\npayload";
    let mut state = Handshake::ExpectRequestLine;
    let mut source = wire.chunks(7);
    let decided = loop {
        let event = loop {
            match reader.read_lines() {
                Ok(Some(text)) => break Event::Line(text),
                Ok(None) => {}
                Err(_) => break Event::Failed,
            }
            if reader.accept(source.next().unwrap_or(&[])).is_err() {
                break Event::Failed;
            }
        };
        let (next, action) = handle_client(state, event);
        state = next;
        if action != Action::ReadLine {
            break action;
        }
    };
    assert_eq!(state, Handshake::Tunneling);
    assert_eq!(
        decided,
        Action::Tunnel(
            Target { host: "db.internal".to_string(), port: 5432 },
            "HTTP/1.1 200 Connection Established\r\n\r\n".to_string()
        )
    );
}

#[test]
fn invalid_text_in_the_request_line_gets_400_and_the_failure() {
    let mut reader = HttpReader::new();
    assert_eq!(reader.accept(&[b'C', 0xff, b'\r', b'\n']), Ok(()));
    let failure = reader.read_lines().unwrap_err();
    assert!(matches!(failure, LineError::InvalidData(_)));
    let (state, action) = handle_client(Handshake::ExpectRequestLine, Event::Failed);
    assert_eq!(state, Handshake::Rejected);
    assert_eq!(action, Action::RejectFailure(bad_request()));
}
