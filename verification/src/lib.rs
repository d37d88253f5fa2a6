//! Core of a multi-user chat application with a voice/video channel.
//!
//! The crate covers the transport-independent heart of the protocol:
//! length-prefixed framing for the reliable stream and for datagrams,
//! the byte layouts of the voice and image datagrams, the server's
//! authoritative message log with its reaction, seen and call-roster
//! tables, the client's mirror of that state, and the per-sender
//! reassembly of fragmented image frames.  Sockets, the cipher, the
//! GUI and the task fabric live outside and hand the crate plain
//! values.

pub mod chunks;
pub mod client;
pub mod datagram;
pub mod endian;
pub mod frame;
pub mod message;
pub mod reassembly;
pub mod server;
pub mod session;
pub mod wav;
