pub mod bitfield;
pub mod handshake;
pub mod message;
pub mod peer;
pub mod request_queue;
pub mod session;
