//! ISO transport on TCP, RFC 1006, as a protocol without its sockets. One
//! COTP message, a run of DT TPDUs up to the one with EOT set, is one unit of
//! data handed up.
//!
//! RFC 1006 is how the OSI transport layer survived: TPKT puts a four-byte
//! frame around each TPDU so a TCP byte stream carries packets, and COTP
//! class 0 above it adds a connect handshake naming both transport service
//! access points, a negotiated TPDU size, and data segmented to that size.
//! Siemens S7, IEC 61850 MMS and the rest of the ISO-on-TCP family ride on
//! exactly this, on port 102.
//!
//! [`tpkt`] and [`tpdu`] are the two formats, [`connection`] is the handshake
//! and the messages, [`transport`] is the configuration and the targets.
//! [`wire`] states what the bytes are one by one, and [`stream`] what all of
//! it comes to on a whole stream of them.
//!
//! The origin URI carries what the handshake knew:
//! `cotp://peer?src-tsap=0100&dst-tsap=0102`, TSAPs in hex, the caller's
//! first. A target is `cotp://host:102`, optionally with the same query to
//! name the TSAPs for that one call, or a bare `host:port` using the
//! configured ones.

pub mod connection;
pub mod error;
pub mod hex;
pub mod stream;
pub mod text;
pub mod tpdu;
pub mod tpkt;
pub mod transport;
pub mod wire;

pub use connection::Connection;
pub use error::Error;
pub use tpdu::Connect;
pub use tpdu::Tpdu;
pub use transport::CotpTransport;
