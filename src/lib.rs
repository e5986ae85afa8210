//! A replicated key-value state machine agreed upon with Practical Byzantine
//! Fault Tolerance: message types and their canonical encoding, signatures,
//! the application, and the replica's three-phase protocol.

pub mod app_state;
pub mod cert;
pub mod codec;
pub mod crypto;
pub mod frame;
pub mod message;
pub mod replica;
