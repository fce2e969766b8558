//! The handshake: from the first line that a client sends to the decision to
//! tunnel or to turn the client away. The driver reads the lines and carries
//! out what is decided here.
use crate::request::{
    error_response, established_response, is_connect, is_well_formed, parse_request_line, resolve,
    resolve_target, response_text, target_of, RequestLine, Target,
};
use vstd::prelude::*;

verus! {

/// Where the handshake stands.
#[derive(Debug, PartialEq, Eq)]
pub enum Handshake {
    /// The request line is awaited.
    ExpectRequestLine,
    /// The request line asked for a tunnel to this target; the header lines
    /// are awaited.
    ExpectHeaders(String),
    /// The tunnel was decided.
    Tunneling,
    /// The client was turned away, or the handshake was given up.
    Rejected,
}

/// What the driver reports: how its last read of a line ended.
#[derive(Debug, PartialEq, Eq)]
pub enum Event {
    /// A line arrived.
    Line(String),
    /// No line could be read: the source failed or ended, or what it sent is
    /// no text. The driver keeps the error.
    Failed,
}

/// Why a handshake was given up without a response.
#[derive(Debug, Clone, Copy, PartialEq, Eq)]
pub enum HandshakeError {
    /// No line could be read; the error is the one of the read.
    ReadFailed,
    /// The target's port is no port.
    InvalidPort,
}

/// What the driver has to do next.
#[derive(Debug, PartialEq, Eq)]
pub enum Action {
    /// Read the next line and report it.
    ReadLine,
    /// Send this response and close: the handshake has ended in order.
    Reject(String),
    /// Send this response and close: the handshake has failed, by the error
    /// of the read that failed.
    RejectFailure(String),
    /// Close without a response: the handshake has failed.
    Abort(HandshakeError),
    /// Connect to this target; when the connection stands, send this response
    /// and relay between the two sides.
    Tunnel(Target, String),
    /// Nothing: the handshake was over before.
    Nothing,
}

/// A handshake's state, with texts as sequences of characters.
pub enum HandshakeView {
    ExpectRequestLine,
    ExpectHeaders(Seq<char>),
    Tunneling,
    Rejected,
}

/// An event, with texts as sequences of characters.
pub enum EventView {
    Line(Seq<char>),
    Failed,
}

/// An action, with texts as sequences of characters: for a tunnel the host,
/// the port and the response.
pub enum ActionView {
    ReadLine,
    Reject(Seq<char>),
    RejectFailure(Seq<char>),
    Abort(HandshakeError),
    Tunnel(Seq<char>, u16, Seq<char>),
    Nothing,
}

impl View for Handshake {
    type V = HandshakeView;

    open spec fn view(&self) -> HandshakeView {
        match self {
            Handshake::ExpectRequestLine => HandshakeView::ExpectRequestLine,
            Handshake::ExpectHeaders(target) => HandshakeView::ExpectHeaders(target@),
            Handshake::Tunneling => HandshakeView::Tunneling,
            Handshake::Rejected => HandshakeView::Rejected,
        }
    }
}

impl View for Event {
    type V = EventView;

    open spec fn view(&self) -> EventView {
        match self {
            Event::Line(line) => EventView::Line(line@),
            Event::Failed => EventView::Failed,
        }
    }
}

impl View for Action {
    type V = ActionView;

    open spec fn view(&self) -> ActionView {
        match self {
            Action::ReadLine => ActionView::ReadLine,
            Action::Reject(response) => ActionView::Reject(response@),
            Action::RejectFailure(response) => ActionView::RejectFailure(response@),
            Action::Abort(e) => ActionView::Abort(*e),
            Action::Tunnel(target, response) => ActionView::Tunnel(
                target.host@,
                target.port,
                response@,
            ),
            Action::Nothing => ActionView::Nothing,
        }
    }
}

/// The response to a request line that cannot be understood.
pub open spec fn bad_request() -> Seq<char> {
    response_text(400, "Bad Request"@)
}

/// The response to a request by another method than `CONNECT`.
pub open spec fn method_not_allowed() -> Seq<char> {
    response_text(405, "Method Not Allowed"@)
}

/// The response that acknowledges a tunnel.
pub open spec fn established() -> Seq<char> {
    response_text(200, Seq::empty())
}

/// The handshake's transition: the state after `event` and what is to be
/// done.
pub open spec fn step(state: HandshakeView, event: EventView) -> (HandshakeView, ActionView) {
    match state {
        HandshakeView::ExpectRequestLine => match event {
            EventView::Failed => (
                HandshakeView::Rejected,
                ActionView::RejectFailure(bad_request()),
            ),
            EventView::Line(line) => if !is_well_formed(line) {
                (HandshakeView::Rejected, ActionView::Reject(bad_request()))
            } else if !is_connect(line) {
                (HandshakeView::Rejected, ActionView::Reject(method_not_allowed()))
            } else {
                (HandshakeView::ExpectHeaders(target_of(line)), ActionView::ReadLine)
            },
        },
        HandshakeView::ExpectHeaders(target) => match event {
            EventView::Failed => (
                HandshakeView::Rejected,
                ActionView::Abort(HandshakeError::ReadFailed),
            ),
            EventView::Line(line) => if line.len() > 0 {
                (HandshakeView::ExpectHeaders(target), ActionView::ReadLine)
            } else {
                match resolve(target) {
                    Some((host, port)) => (
                        HandshakeView::Tunneling,
                        ActionView::Tunnel(host, port, established()),
                    ),
                    None => (
                        HandshakeView::Rejected,
                        ActionView::Abort(HandshakeError::InvalidPort),
                    ),
                }
            },
        },
        HandshakeView::Tunneling => (HandshakeView::Tunneling, ActionView::Nothing),
        HandshakeView::Rejected => (HandshakeView::Rejected, ActionView::Nothing),
    }
}

/// Decides what follows `event` in `state`.
pub fn handle_client(state: Handshake, event: Event) -> (next: (Handshake, Action))
    ensures
        (next.0@, next.1@) == step(state@, event@),
{
    match state {
        Handshake::ExpectRequestLine => match event {
            Event::Failed => (
                Handshake::Rejected,
                Action::RejectFailure(error_response(400, "Bad Request")),
            ),
            Event::Line(line) => match parse_request_line(line.as_str()) {
                RequestLine::Malformed => (
                    Handshake::Rejected,
                    Action::Reject(error_response(400, "Bad Request")),
                ),
                RequestLine::OtherMethod => (
                    Handshake::Rejected,
                    Action::Reject(error_response(405, "Method Not Allowed")),
                ),
                RequestLine::Connect(target) => (Handshake::ExpectHeaders(target), Action::ReadLine),
            },
        },
        Handshake::ExpectHeaders(target) => match event {
            Event::Failed => (Handshake::Rejected, Action::Abort(HandshakeError::ReadFailed)),
            Event::Line(line) => if line.as_str().is_empty() {
                match resolve_target(target.as_str()) {
                    Ok(resolved) => (
                        Handshake::Tunneling,
                        Action::Tunnel(resolved, established_response()),
                    ),
                    Err(_) => (Handshake::Rejected, Action::Abort(HandshakeError::InvalidPort)),
                }
            } else {
                (Handshake::ExpectHeaders(target), Action::ReadLine)
            },
        },
        Handshake::Tunneling => (Handshake::Tunneling, Action::Nothing),
        Handshake::Rejected => (Handshake::Rejected, Action::Nothing),
    }
}

} // verus!
