//! A two-party chat channel: an unauthenticated Diffie-Hellman handshake, a
//! linear congruential keystream per direction, and length-prefixed frames.
//! Beside it, a byte-valued grid with cheapest and dearest path search.

pub mod chat;
pub mod cipher;
pub mod dh;
pub mod grid;
pub mod net;
pub mod path;
mod random;
