//! A forward proxy core for the HTTP `CONNECT` method.
//!
//! The crate holds the logic of the proxy as verified code:
//!
//! * [`recorder`]: the broadcast buffer, a byte queue with one producer and
//!   any number of consumers, each with its own read position;
//! * [`line_reader`]: the incremental reader of CRLF-terminated lines;
//! * [`request`]: the request line, the target address and the responses;
//! * [`handshake`]: the state machine that decides whether to tunnel;
//! * [`tunnel`]: the two buffers of one tunnel and the rule by which it ends.
//!
//! What holds of these pieces for every input is proved beside them, in
//! [`recorder::laws`], [`line_laws`] and [`handshake_laws`].
//!
//! Sockets, locks and the task runtime stay with the program that drives
//! these pieces.
pub mod handshake;
pub mod handshake_laws;
pub mod line_laws;
pub mod line_reader;
pub mod recorder;
pub mod request;
pub mod tunnel;
